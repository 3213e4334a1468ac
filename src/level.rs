//! Building a floor from an accepted cave: tiles, the player, enemies,
//! items and the stairs.
use vstd::prelude::*;
use crate::dungeon::Dungeon;
use crate::entity::{EntityRecord, Health, Item, Kind};
use crate::generation::{CaveLayout, TileType, MAP_SIZE, MIN_ZONES, generate_cave, has_zone, on_border, alive_grid, alive_col, cave_size};
use crate::grid::Array2D;
use crate::grid::GridPosition;
use crate::progression::{AppState, GameData, TurnState, spec_floor_item, spec_floor_map_size, spec_floor_enemy_count, spec_floor_item_count};
use crate::world_map::WorldMap;

verus! {

/// Side of a floor: the generation grid without its outer ring.
pub const FLOOR_SIZE: i32 = 38;

/// Attempts at generating a cave before giving up.
pub const MAX_ATTEMPTS: u32 = 1000;

/// An entity waiting to be placed in a zone.
#[derive(Clone, Copy, Debug, PartialEq, Eq, Structural)]
pub enum Spawn {
    Player,
    Orc,
    Loot(Item),
}

/// The zone a roll sends an enemy or an item to: never the first zone,
/// where the player starts.
pub open spec fn spec_zone_for_roll(zones: usize, roll: u32) -> usize {
    (2 + roll % ((zones - 1) as u32)) as usize
}

pub fn zone_for_roll(zones: usize, roll: u32) -> (z: usize)
    requires
        2 <= zones <= 36 * 36,
    ensures
        z == spec_zone_for_roll(zones, roll),
        2 <= z <= zones,
{
    (2 + roll % ((zones - 1) as u32)) as usize
}

/// The enemies the first `k` rolls send to zone `z`.
pub open spec fn enemies_for(zones: usize, rolls: Seq<u32>, z: int, k: int) -> Seq<Spawn>
    decreases k,
{
    if k <= 0 { Seq::empty() } else {
        let s = enemies_for(zones, rolls, z, k - 1);
        if spec_zone_for_roll(zones, rolls[k - 1]) == z { s.push(Spawn::Orc) } else { s }
    }
}

/// The items the first `k` roll pairs send to zone `z`.
pub open spec fn items_for(zones: usize, floor: u32, rolls: Seq<(u32, u32)>, z: int, k: int) -> Seq<Spawn>
    decreases k,
{
    if k <= 0 { Seq::empty() } else {
        let s = items_for(zones, floor, rolls, z, k - 1);
        if spec_zone_for_roll(zones, rolls[k - 1].0) == z {
            s.push(Spawn::Loot(spec_floor_item(floor, rolls[k - 1].1)))
        } else {
            s
        }
    }
}

/// What zone `z` receives: the player in zone 1, then its enemies and its
/// items, each in roll order.
pub open spec fn planned(zones: usize, floor: u32, enemy_rolls: Seq<u32>, item_rolls: Seq<(u32, u32)>, z: int) -> Seq<Spawn> {
    (if z == 1 { seq![Spawn::Player] } else { Seq::<Spawn>::empty() })
        + enemies_for(zones, enemy_rolls, z, enemy_rolls.len() as int)
        + items_for(zones, floor, item_rolls, z, item_rolls.len() as int)
}

/// What each zone receives, indexed by zone label: the player in zone 1,
/// each enemy and item in the zone its roll picks, the item itself picked by
/// a second roll.
pub fn plan_spawns(zones: usize, data: &GameData, enemy_rolls: &Vec<u32>, item_rolls: &Vec<(u32, u32)>) -> (plan: Vec<Vec<Spawn>>)
    requires
        2 <= zones <= 36 * 36,
    ensures
        plan@.len() == zones + 1,
        plan@[1]@ == seq![Spawn::Player],
        plan@[0]@.len() == 0,
        forall|z: int, i: int| 0 <= z < plan@.len() && 0 <= i < plan@[z]@.len() && z != 1 ==> #[trigger] plan@[z]@[i] != Spawn::Player,
        forall|z: int| 0 <= z < plan@.len() ==> (#[trigger] plan@[z])@ == planned(zones, data.floor, enemy_rolls@, item_rolls@, z),
{
    let mut plan: Vec<Vec<Spawn>> = Vec::new();
    let mut z: usize = 0;
    while z <= zones
        invariant
            zones <= 36 * 36,
            0 <= z <= zones + 1,
            plan@.len() == z,
            forall|k: int| 0 <= k < z ==> (#[trigger] plan@[k])@ == (if k == 1 { seq![Spawn::Player] } else { Seq::<Spawn>::empty() }),
        decreases zones + 1 - z,
    {
        let mut v: Vec<Spawn> = Vec::new();
        if z == 1 {
            v.push(Spawn::Player);
        }
        plan.push(v);
        z = z + 1;
        proof {
            assert(plan@[z - 1]@ =~= (if z - 1 == 1 { seq![Spawn::Player] } else { Seq::<Spawn>::empty() }));
        }
    }
    let mut i: usize = 0;
    while i < enemy_rolls.len()
        invariant
            2 <= zones <= 36 * 36,
            plan@.len() == zones + 1,
            plan@[1]@ == seq![Spawn::Player],
            plan@[0]@.len() == 0,
            forall|z: int, k: int| 0 <= z < plan@.len() && 0 <= k < plan@[z]@.len() && z != 1 ==> #[trigger] plan@[z]@[k] != Spawn::Player,
            0 <= i <= enemy_rolls@.len(),
            forall|z: int| 0 <= z < plan@.len() ==> (#[trigger] plan@[z])@ == (if z == 1 { seq![Spawn::Player] } else { Seq::<Spawn>::empty() })
                + enemies_for(zones, enemy_rolls@, z, i as int),
        decreases enemy_rolls@.len() - i,
    {
        let z = zone_for_roll(zones, enemy_rolls[i]);
        let ghost before = plan@;
        plan[z].push(Spawn::Orc);
        proof {
            assert forall|zz: int| 0 <= zz < plan@.len() implies (#[trigger] plan@[zz])@ == (if zz == 1 { seq![Spawn::Player] } else { Seq::<Spawn>::empty() })
                + enemies_for(zones, enemy_rolls@, zz, i + 1) by {
                if zz != z {
                    assert(plan@[zz] == before[zz]);
                } else {
                    assert(plan@[zz]@ =~= (if zz == 1 { seq![Spawn::Player] } else { Seq::<Spawn>::empty() })
                        + enemies_for(zones, enemy_rolls@, zz, i + 1));
                }
            }
            assert forall|zz: int, k: int| 0 <= zz < plan@.len() && 0 <= k < plan@[zz]@.len() && zz != 1 implies #[trigger] plan@[zz]@[k]
                != Spawn::Player by {
                if zz != z {
                    assert(plan@[zz] == before[zz]);
                } else if k < before[zz]@.len() {
                    assert(plan@[zz]@[k] == before[zz]@[k]);
                }
            }
        }
        i = i + 1;
    }
    let mut i: usize = 0;
    while i < item_rolls.len()
        invariant
            2 <= zones <= 36 * 36,
            plan@.len() == zones + 1,
            plan@[1]@ == seq![Spawn::Player],
            plan@[0]@.len() == 0,
            forall|z: int, k: int| 0 <= z < plan@.len() && 0 <= k < plan@[z]@.len() && z != 1 ==> #[trigger] plan@[z]@[k] != Spawn::Player,
            0 <= i <= item_rolls@.len(),
            forall|z: int| 0 <= z < plan@.len() ==> (#[trigger] plan@[z])@ == (if z == 1 { seq![Spawn::Player] } else { Seq::<Spawn>::empty() })
                + enemies_for(zones, enemy_rolls@, z, enemy_rolls@.len() as int) + items_for(zones, data.floor, item_rolls@, z, i as int),
        decreases item_rolls@.len() - i,
    {
        let (zone_roll, item_roll) = item_rolls[i];
        let z = zone_for_roll(zones, zone_roll);
        let item = data.floor_item(item_roll);
        let ghost before = plan@;
        plan[z].push(Spawn::Loot(item));
        proof {
            assert forall|zz: int| 0 <= zz < plan@.len() implies (#[trigger] plan@[zz])@ == (if zz == 1 { seq![Spawn::Player] } else { Seq::<Spawn>::empty() })
                + enemies_for(zones, enemy_rolls@, zz, enemy_rolls@.len() as int) + items_for(zones, data.floor, item_rolls@, zz, i + 1) by {
                if zz != z {
                    assert(plan@[zz] == before[zz]);
                } else {
                    assert(plan@[zz]@ =~= (if zz == 1 { seq![Spawn::Player] } else { Seq::<Spawn>::empty() })
                        + enemies_for(zones, enemy_rolls@, zz, enemy_rolls@.len() as int) + items_for(zones, data.floor, item_rolls@, zz, i + 1));
                }
            }
            assert forall|zz: int, k: int| 0 <= zz < plan@.len() && 0 <= k < plan@[zz]@.len() && zz != 1 implies #[trigger] plan@[zz]@[k]
                != Spawn::Player by {
                if zz != z {
                    assert(plan@[zz] == before[zz]);
                } else if k < before[zz]@.len() {
                    assert(plan@[zz]@[k] == before[zz]@[k]);
                }
            }
        }
        i = i + 1;
    }
    plan
}


/// Some cell of the 3 by 3 block around `(x, y)` is cave.
pub open spec fn near_cave(t: &crate::grid::Array2D<TileType>, x: int, y: int) -> bool {
    exists|i: int, j: int| -1 <= i <= 1 && -1 <= j <= 1 && #[trigger] t.at(x + i, y + j) is Alive
}

fn near_cave_at(t: &crate::grid::Array2D<TileType>, x: usize, y: usize) -> (r: bool)
    requires
        t.wf(),
        t.width() == MAP_SIZE,
        t.height == MAP_SIZE,
        1 <= x < MAP_SIZE - 1,
        1 <= y < MAP_SIZE - 1,
    ensures
        r == near_cave(t, x as int, y as int),
{
    let mut i: usize = 0;
    while i < 3
        invariant
            t.wf(),
            t.width() == MAP_SIZE,
            t.height == MAP_SIZE,
            1 <= x < MAP_SIZE - 1,
            1 <= y < MAP_SIZE - 1,
            0 <= i <= 3,
            forall|a: int, b: int| -1 <= a < i - 1 && -1 <= b <= 1 ==> !(#[trigger] t.at(x + a, y + b) is Alive),
        decreases 3 - i,
    {
        let mut j: usize = 0;
        while j < 3
            invariant
                t.wf(),
                t.width() == MAP_SIZE,
                t.height == MAP_SIZE,
                1 <= x < MAP_SIZE - 1,
                1 <= y < MAP_SIZE - 1,
                0 <= i < 3,
                0 <= j <= 3,
                forall|a: int, b: int| -1 <= a < i - 1 && -1 <= b <= 1 ==> !(#[trigger] t.at(x + a, y + b) is Alive),
                forall|b: int| -1 <= b < j - 1 ==> !(#[trigger] t.at(x + i - 1, y + b) is Alive),
            decreases 3 - j,
        {
            if let TileType::Alive(_) = t.elems[x + i - 1][y + j - 1] {
                proof {
                    assert(t.at(x + (i - 1), y + (j - 1)) is Alive);
                }
                return true;
            }
            j = j + 1;
        }
        proof {
            assert forall|a: int, b: int| -1 <= a < i && -1 <= b <= 1 implies !(#[trigger] t.at(x + a, y + b) is Alive) by {
                if a == i - 1 {
                    assert(!(t.at(x + i - 1, y + b) is Alive));
                }
            }
        }
        i = i + 1;
    }
    false
}


/// Number of cave cells of `t` before `(x, y)` in scan order (x outer).
pub open spec fn scan_rank(t: &Array2D<TileType>, x: int, y: int) -> nat {
    alive_grid(t.elems@.subrange(0, x)) + alive_col(t.elems@[x]@.subrange(0, y))
}

proof fn lemma_alive_col_zero(c: Seq<TileType>)
    requires
        forall|i: int| 0 <= i < c.len() ==> !(c[i] is Alive),
    ensures
        alive_col(c) == 0,
    decreases c.len(),
{
    if c.len() > 0 {
        lemma_alive_col_zero(c.drop_last());
    }
}


/// The entity kind a spawn becomes.
pub open spec fn spawn_kind(s: Spawn) -> Kind {
    match s {
        Spawn::Player => Kind::Player,
        Spawn::Orc => Kind::Orc,
        Spawn::Loot(i) => Kind::Loot(i),
    }
}

/// What floor cell `(x - 1, y - 1)` of `d` holds, built from cell `(x, y)`
/// of `t`: a cave cell holds a floor tile, or the stairs when its scan rank
/// is `si`, and possibly one entity planned for its zone; rock next to the
/// cave holds a wall; other rock holds nothing.
pub open spec fn cell_built(d: &Dungeon, t: &Array2D<TileType>, plan: Seq<Vec<Spawn>>, si: int, x: int, y: int) -> bool {
    let occ = d.map.occupants(x - 1, y - 1);
    if t.at(x, y) is Alive {
        let z = t.at(x, y)->Alive_0 as int;
        &&& 1 <= occ.len() <= 2
        &&& d.entities@[occ[0] as int].kind == (if scan_rank(t, x, y) == si { Kind::Stairs } else { Kind::Floor })
        &&& occ.len() == 2 ==> exists|i: int| 0 <= i < plan[z]@.len() && spawn_kind(#[trigger] plan[z]@[i]) == d.entities@[occ[1] as int].kind
    } else if near_cave(t, x, y) {
        occ.len() == 1 && d.entities@[occ[0] as int].kind == Kind::Wall
    } else {
        occ.len() == 0
    }
}

proof fn lemma_cell_built_frame(d1: &Dungeon, d2: &Dungeon, t: &Array2D<TileType>, plan: Seq<Vec<Spawn>>, si: int, x: int, y: int)
    requires
        d1.wf(),
        d1.map.in_bounds(x - 1, y - 1),
        cell_built(d1, t, plan, si, x, y),
        d2.map.occupants(x - 1, y - 1) == d1.map.occupants(x - 1, y - 1),
        d1.entities@.len() <= d2.entities@.len(),
        forall|k: int| 0 <= k < d1.entities@.len() ==> #[trigger] d2.entities@[k] == d1.entities@[k],
    ensures
        cell_built(d2, t, plan, si, x, y),
{
    let occ = d1.map.occupants(x - 1, y - 1);
    if occ.len() >= 1 {
        assert(d1.placed_at(occ[0] as int, x - 1, y - 1));
    }
    if occ.len() >= 2 {
        assert(d1.placed_at(occ[1] as int, x - 1, y - 1));
    }
}

/// The health the player starts a floor with.
pub open spec fn starting_health(data: &GameData) -> Health {
    match data.previous_hp {
        Some(h) => h,
        None => Health { current: 8, max: 8 },
    }
}

/// The facts `build_floor` establishes about the entities it places.
pub open spec fn placed_well(d: &Dungeon, layout: &CaveLayout, data: &GameData) -> bool {
    &&& forall|e: int| 0 <= e < d.entities@.len() && (#[trigger] d.entities@[e]).kind is Player
        ==> d.entities@[e].health == Some(starting_health(data))
    &&& forall|e: int| 0 <= e < d.entities@.len() && (#[trigger] d.entities@[e]).kind is Orc ==> {
        let p = d.entities@[e].position->0;
        &&& d.entities@[e].position is Some
        &&& layout.tiles.at(p.x + 1, p.y + 1) is Alive
        &&& layout.tiles.at(p.x + 1, p.y + 1) != TileType::Alive(1)
    }
}

/// Materializes a floor: every cave cell becomes a floor tile, except the
/// one the stairs roll picks among them in scan order, which becomes the
/// stairs; rock next to the cave becomes wall. Each cave cell of a zone also
/// receives the next entity waiting for that zone. The player thus stands in
/// zone 1, which no enemy enters.
pub fn build_floor(layout: &CaveLayout, data: GameData, plan: Vec<Vec<Spawn>>, stairs_roll: u32) -> (d: Dungeon)
    requires
        layout.wf(),
        layout.size > 0,
        layout.zones >= 1,
        data.wf(),
        data.previous_hp matches Some(h) ==> 0 < h.current <= h.max,
        plan@.len() == layout.zones + 1,
        plan@[1]@ == seq![Spawn::Player],
        forall|z: int, i: int| 0 <= z < plan@.len() && 0 <= i < plan@[z]@.len() && z != 1 ==> #[trigger] plan@[z]@[i] != Spawn::Player,
    ensures
        d.wf(),
        d.settled(),
        d.data == data,
        d.map.tiles.width() == FLOOR_SIZE,
        d.map.tiles.height == FLOOR_SIZE,
        d.map.in_bounds(d.map.stairs.x as int, d.map.stairs.y as int),
        placed_well(&d, layout, &data),
        exists|e: int| 0 <= e < d.entities@.len() && (#[trigger] d.entities@[e]).kind is Player && d.entities@[e].alive,
        layout.tiles.at(d.map.stairs.x + 1, d.map.stairs.y + 1) is Alive,
        scan_rank(&layout.tiles, d.map.stairs.x + 1, d.map.stairs.y + 1) == stairs_roll % layout.size,
        forall|x: int, y: int| 1 <= x < MAP_SIZE - 1 && 1 <= y < MAP_SIZE - 1
            ==> #[trigger] cell_built(&d, &layout.tiles, plan@, (stairs_roll % layout.size) as int, x, y),
{
    let ghost plan0 = plan@;
    let t = &layout.tiles;
    let previous_hp = data.previous_hp;
    let map = WorldMap::new(FLOOR_SIZE, FLOOR_SIZE, GridPosition { x: 0, y: 0 });
    let mut d = Dungeon::new(map, data);
    let mut plan = plan;
    let stairs_index: u32 = stairs_roll % layout.size;
    let mut stairs = GridPosition { x: 0, y: 0 };
    let mut seen: u32 = 0;
    proof {
        assert forall|z: int| 0 <= z < plan@.len() implies (#[trigger] plan@[z])@.len() <= plan0[z]@.len() && plan@[z]@ == plan0[z]@.subrange(0, plan@[z]@.len() as int) by {
            assert(plan0[z]@.subrange(0, plan0[z]@.len() as int) =~= plan0[z]@);
        }
        let g = t.elems@;
        assert(g.subrange(0, 1).drop_last() =~= g.subrange(0, 0));
        assert(alive_grid(g.subrange(0, 0)) == 0);
        let first = g[0]@;
        assert forall|i: int| 0 <= i < first.len() implies !(#[trigger] first[i] is Alive) by {
            assert(t.at(0, i) == TileType::Dead);
        }
        lemma_alive_col_zero(first);
        assert(g.subrange(0, 1).last() == g[0]);
    }
    let mut x: usize = 1;
    while x < (MAP_SIZE - 1) as usize
        invariant
            layout.wf(),
            t == &layout.tiles,
            data.previous_hp matches Some(h) ==> 0 < h.current <= h.max,
            previous_hp == data.previous_hp,
            1 <= x <= MAP_SIZE - 1,
            d.wf(),
            d.settled(),
            d.data == data,
            d.map.tiles.width() == FLOOR_SIZE,
            d.map.tiles.height == FLOOR_SIZE,
            0 <= stairs.x < FLOOR_SIZE,
            0 <= stairs.y < FLOOR_SIZE,
            seen <= 38 * (x - 1),
            d.entities@.len() <= 76 * (x - 1),
            seen == alive_grid(t.elems@.subrange(0, x as int)),
            stairs_index == stairs_roll % layout.size,
            seen > stairs_index ==> t.at(stairs.x + 1, stairs.y + 1) is Alive && scan_rank(t, stairs.x + 1, stairs.y + 1) == stairs_index,
            plan@.len() == layout.zones + 1,
            plan@[1]@ == seq![Spawn::Player] || plan@[1]@.len() == 0,
            forall|z: int, i: int| 0 <= z < plan@.len() && 0 <= i < plan@[z]@.len() && z != 1 ==> #[trigger] plan@[z]@[i] != Spawn::Player,
            plan@[1]@.len() == 0 ==> exists|e: int| 0 <= e < d.entities@.len() && (#[trigger] d.entities@[e]).kind is Player && d.entities@[e].alive,
            plan@[1]@.len() > 0 ==> forall|i: int, j: int| 1 <= i < x && 1 <= j < MAP_SIZE - 1 ==> #[trigger] t.at(i, j) != TileType::Alive(1),
            placed_well(&d, layout, &data),
            forall|z: int| 0 <= z < plan@.len() ==> (#[trigger] plan@[z])@.len() <= plan0[z]@.len() && plan@[z]@ == plan0[z]@.subrange(0, plan@[z]@.len() as int),
            forall|i: int, j: int| 1 <= i < x && 1 <= j < MAP_SIZE - 1 ==> #[trigger] cell_built(&d, t, plan0, stairs_index as int, i, j),
            forall|i: int, j: int| x <= i < MAP_SIZE - 1 && 1 <= j < MAP_SIZE - 1 ==> (#[trigger] d.map.occupants(i - 1, j - 1)).len() == 0,
            plan0.len() == plan@.len(),
        decreases MAP_SIZE - x,
    {
        let mut y: usize = 1;
        proof {
            let c = t.elems@[x as int]@;
            assert(c.subrange(0, 1).drop_last() =~= c.subrange(0, 0));
            assert(t.at(x as int, 0) == TileType::Dead);
            assert(alive_col(c.subrange(0, 0)) == 0);
        }
        while y < (MAP_SIZE - 1) as usize
            invariant
                layout.wf(),
                t == &layout.tiles,
                data.previous_hp matches Some(h) ==> 0 < h.current <= h.max,
                previous_hp == data.previous_hp,
                1 <= x < MAP_SIZE - 1,
                1 <= y <= MAP_SIZE - 1,
                d.wf(),
                d.settled(),
                d.data == data,
                d.map.tiles.width() == FLOOR_SIZE,
                d.map.tiles.height == FLOOR_SIZE,
                0 <= stairs.x < FLOOR_SIZE,
                0 <= stairs.y < FLOOR_SIZE,
                seen <= 38 * (x - 1) + (y - 1),
                d.entities@.len() <= 76 * (x - 1) + 2 * (y - 1),
                seen == scan_rank(t, x as int, y as int),
                stairs_index == stairs_roll % layout.size,
                seen > stairs_index ==> t.at(stairs.x + 1, stairs.y + 1) is Alive && scan_rank(t, stairs.x + 1, stairs.y + 1) == stairs_index,
                plan@.len() == layout.zones + 1,
                plan@[1]@ == seq![Spawn::Player] || plan@[1]@.len() == 0,
                forall|z: int, i: int| 0 <= z < plan@.len() && 0 <= i < plan@[z]@.len() && z != 1 ==> #[trigger] plan@[z]@[i] != Spawn::Player,
                plan@[1]@.len() == 0 ==> exists|e: int| 0 <= e < d.entities@.len() && (#[trigger] d.entities@[e]).kind is Player && d.entities@[e].alive,
                plan@[1]@.len() > 0 ==> forall|i: int, j: int| (1 <= i < x && 1 <= j < MAP_SIZE - 1) || (i == x && 1 <= j < y)
                    ==> #[trigger] t.at(i, j) != TileType::Alive(1),
                placed_well(&d, layout, &data),
                forall|z: int| 0 <= z < plan@.len() ==> (#[trigger] plan@[z])@.len() <= plan0[z]@.len() && plan@[z]@ == plan0[z]@.subrange(0, plan@[z]@.len() as int),
                forall|i: int, j: int| (1 <= i < x && 1 <= j < MAP_SIZE - 1) || (i == x && 1 <= j < y)
                    ==> #[trigger] cell_built(&d, t, plan0, stairs_index as int, i, j),
                forall|i: int, j: int| (x < i < MAP_SIZE - 1 && 1 <= j < MAP_SIZE - 1) || (i == x && y <= j < MAP_SIZE - 1)
                    ==> (#[trigger] d.map.occupants(i - 1, j - 1)).len() == 0,
                plan0.len() == plan@.len(),
            decreases MAP_SIZE - y,
        {
            let pos = GridPosition { x: (x - 1) as i32, y: (y - 1) as i32 };
            proof {
                let c = t.elems@[x as int]@;
                assert(c.subrange(0, y + 1).drop_last() =~= c.subrange(0, y as int));
                assert(c.subrange(0, y + 1).last() == t.at(x as int, y as int));
            }
            let ghost plan_before = plan@;
            let ghost d_before = d;
            match t.elems[x][y] {
                TileType::Alive(zone) => {
                    let ghost rank = seen;
                    let ghost e1: int = d.entities@.len() as int;
                    proof {
                        assert(d.map.occupants(x - 1, y - 1).len() == 0);
                    }
                    let tile = if seen == stairs_index {
                        stairs = pos;
                        EntityRecord::stairs(pos.x, pos.y)
                    } else {
                        EntityRecord::floor(pos.x, pos.y)
                    };
                    seen = seen + 1;
                    proof {
                        assert(d.entities@.len() <= 2886);
                    }
                    d.spawn(tile);
                    proof {
                        assert(t.at(x as int, y as int) == TileType::Alive(zone));
                        assert(1 <= zone <= layout.zones);
                        assert(d.map.occupants(x - 1, y - 1) =~= seq![e1 as usize]);
                        assert(d.entities@[e1 as int].kind == (if scan_rank(t, x as int, y as int) == stairs_index { Kind::Stairs } else { Kind::Floor }));
                    }
                    let ghost d_tile = d;
                    let ghost n = plan@[zone as int]@.len();
                    let ghost pz = plan@[zone as int]@;
                    proof {
                        assert(plan@ == plan_before);
                        assert(pz == plan0[zone as int]@.subrange(0, n as int));
                    }
                    let popped = plan[zone].pop();
                    proof {
                        if n > 0 {
                            assert(popped == Some(pz[n - 1]));
                            assert(pz[n - 1] == plan0[zone as int]@[n - 1]);
                        } else {
                            assert(popped is None);
                        }
                    }
                    match popped {
                        Some(Spawn::Player) => {
                            d.spawn(EntityRecord::player(pos, previous_hp));
                            proof {
                                assert(zone == 1);
                                assert(d.entities@[d.entities@.len() - 1].kind is Player);
                            }
                        },
                        Some(Spawn::Orc) => {
                            d.spawn(EntityRecord::orc(pos));
                            proof {
                                assert(zone != 1);
                            }
                        },
                        Some(Spawn::Loot(item)) => {
                            d.spawn(EntityRecord::item(pos, item));
                        },
                        None => {},
                    }
                    proof {
                        if popped is Some {
                            assert(d.map.occupants(x - 1, y - 1) =~= seq![e1 as usize, (e1 + 1) as usize]);
                            assert(d.entities@[e1 as int] == d_tile.entities@[e1 as int]);
                            assert(spawn_kind(plan0[zone as int]@[n - 1]) == d.entities@[e1 + 1 as int].kind);
                        } else {
                            assert(d == d_tile);
                        }
                        assert(cell_built(&d, t, plan0, stairs_index as int, x as int, y as int));
                    }
                    proof {
                        if plan@[1]@.len() == 0 {
                            if plan_before[1]@.len() == 0 {
                                let e = choose|e: int| 0 <= e < d_before.entities@.len() && (#[trigger] d_before.entities@[e]).kind is Player
                                    && d_before.entities@[e].alive;
                                assert(d.entities@[e] == d_before.entities@[e]);
                            } else {
                                assert(zone == 1);
                                assert(d.entities@[d.entities@.len() - 1].kind is Player);
                            }
                        }
                    }
                },
                TileType::Dead => {
                    let ghost e1: int = d.entities@.len() as int;
                    proof {
                        assert(d.map.occupants(x - 1, y - 1).len() == 0);
                        assert(t.at(x as int, y as int) == TileType::Dead);
                    }
                    if near_cave_at(t, x, y) {
                        d.spawn(EntityRecord::wall(pos.x, pos.y));
                        proof {
                            assert(d.map.occupants(x - 1, y - 1) =~= seq![e1 as usize]);
                        }
                    }
                    proof {
                        assert(cell_built(&d, t, plan0, stairs_index as int, x as int, y as int));
                    }
                    proof {
                        if plan@[1]@.len() == 0 {
                            let e = choose|e: int| 0 <= e < d_before.entities@.len() && (#[trigger] d_before.entities@[e]).kind is Player
                                && d_before.entities@[e].alive;
                            assert(d.entities@[e] == d_before.entities@[e]);
                        }
                    }
                },
            }
            proof {
                assert(d.map.in_bounds(x - 1, y - 1));
                assert forall|i: int, j: int| 1 <= i < MAP_SIZE - 1 && 1 <= j < MAP_SIZE - 1 && (i != x || j != y)
                    implies #[trigger] d.map.occupants(i - 1, j - 1) == d_before.map.occupants(i - 1, j - 1) by {
                    assert(d_before.map.in_bounds(i - 1, j - 1));
                    assert(GridPosition::at(i - 1, j - 1) != pos);
                }
                assert forall|i: int, j: int| (1 <= i < x && 1 <= j < MAP_SIZE - 1) || (i == x && 1 <= j < y + 1)
                    implies #[trigger] cell_built(&d, t, plan0, stairs_index as int, i, j) by {
                    if i != x || j != y {
                        assert(cell_built(&d_before, t, plan0, stairs_index as int, i, j));
                        lemma_cell_built_frame(&d_before, &d, t, plan0, stairs_index as int, i, j);
                    }
                }
                assert forall|z: int| 0 <= z < plan@.len() implies (#[trigger] plan@[z])@.len() <= plan0[z]@.len() && plan@[z]@ == plan0[z]@.subrange(0, plan@[z]@.len() as int) by {
                    if plan@[z] != plan_before[z] {
                        assert(plan_before[z]@ == plan0[z]@.subrange(0, plan_before[z]@.len() as int));
                        assert(plan@[z]@ =~= plan0[z]@.subrange(0, plan@[z]@.len() as int));
                    }
                }
            }
            y = y + 1;
        }
        proof {
            let g = t.elems@;
            let c = g[x as int]@;
            assert(g.subrange(0, x + 1).drop_last() =~= g.subrange(0, x as int));
            assert(g.subrange(0, x + 1).last() == g[x as int]);
            assert(c.drop_last() =~= c.subrange(0, MAP_SIZE - 1));
            assert(t.at(x as int, MAP_SIZE - 1) == TileType::Dead);
        }
        x = x + 1;
    }
    proof {
        let g = t.elems@;
        assert(g.drop_last() =~= g.subrange(0, MAP_SIZE - 1));
        let last = g[MAP_SIZE - 1]@;
        assert forall|i: int| 0 <= i < last.len() implies !(#[trigger] last[i] is Alive) by {
            assert(t.at(MAP_SIZE - 1, i) == TileType::Dead);
        }
        lemma_alive_col_zero(last);
        assert(seen == cave_size(t));
        assert(seen > stairs_index);
    }
    let ghost before = d;
    d.map.stairs = stairs;
    proof {
        assert forall|i: int, j: int| 1 <= i < MAP_SIZE - 1 && 1 <= j < MAP_SIZE - 1
            implies #[trigger] cell_built(&d, &layout.tiles, plan0, (stairs_roll % layout.size) as int, i, j) by {
            assert(cell_built(&before, t, plan0, stairs_index as int, i, j));
        }
        Dungeon::lemma_same_layout(&before, &d);
        assert forall|k: int| #![trigger d.entities@[k]] d.live(k) implies !d.dying(k) by {
            assert(before.live(k));
        }
        if plan@[1]@.len() > 0 {
            assert(has_zone(t, 1));
            let (i, j) = choose|i: int, j: int| t.in_bounds(i, j) && #[trigger] t.at(i, j) == TileType::Alive(1);
            assert(!on_border(i, j));
            assert(t.at(i, j) != TileType::Alive(1));
        }
    }
    d
}


/// `d` is the floor built from the accepted cave `layout` for `data`'s
/// floor: with the spawns the rolls plan per zone, the stairs on the cave
/// cell the stairs roll picks, and every cell built as `cell_built` says.
pub open spec fn built_from(d: &Dungeon, data: &GameData, layout: &CaveLayout, plan: Seq<Vec<Spawn>>,
    enemy_rolls: Seq<u32>, item_rolls: Seq<(u32, u32)>, stairs_roll: u32) -> bool {
    &&& layout.wf()
    &&& spec_floor_map_size(data.floor).0 <= layout.size <= spec_floor_map_size(data.floor).1
    &&& layout.zones >= MIN_ZONES
    &&& enemy_rolls.len() == spec_floor_enemy_count(data.floor)
    &&& item_rolls.len() == spec_floor_item_count(data.floor)
    &&& plan.len() == layout.zones + 1
    &&& forall|z: int| 0 <= z < plan.len() ==> (#[trigger] plan[z])@ == planned(layout.zones, data.floor, enemy_rolls, item_rolls, z)
    &&& placed_well(d, layout, data)
    &&& forall|x: int, y: int| 1 <= x < MAP_SIZE - 1 && 1 <= y < MAP_SIZE - 1
        ==> #[trigger] cell_built(d, &layout.tiles, plan, (stairs_roll % layout.size) as int, x, y)
    &&& layout.tiles.at(d.map.stairs.x + 1, d.map.stairs.y + 1) is Alive
    &&& scan_rank(&layout.tiles, d.map.stairs.x + 1, d.map.stairs.y + 1) == stairs_roll % layout.size
}

/// Draws `n` random numbers.
fn draw_rolls(n: u32) -> (r: Vec<u32>)
    ensures
        r@.len() == n,
{
    let mut r: Vec<u32> = Vec::new();
    let mut i: u32 = 0;
    while i < n
        invariant
            0 <= i <= n,
            r@.len() == i,
        decreases n - i,
    {
        r.push(rand::random::<u32>());
        i = i + 1;
    }
    r
}

/// Generates a floor for `data`: a cave accepted for its floor (or `None`
/// after `MAX_ATTEMPTS` rejected ones), with the floor's number of enemies and
/// items in random zones other than the player's, and the stairs on a random
/// cave cell.
pub fn generate(data: GameData) -> (r: Option<Dungeon>)
    requires
        data.wf(),
        data.previous_hp matches Some(h) ==> 0 < h.current <= h.max,
    ensures
        r matches Some(d) ==> {
            &&& d.wf()
            &&& d.settled()
            &&& d.data == data
            &&& exists|e: int| 0 <= e < d.entities@.len() && (#[trigger] d.entities@[e]).kind is Player && d.entities@[e].alive
            &&& forall|e: int| 0 <= e < d.entities@.len() && (#[trigger] d.entities@[e]).kind is Player
                ==> d.entities@[e].health == Some(starting_health(&data))
            &&& exists|layout: CaveLayout, plan: Seq<Vec<Spawn>>, enemy_rolls: Seq<u32>, item_rolls: Seq<(u32, u32)>, stairs_roll: u32|
                #[trigger] built_from(&d, &data, &layout, plan, enemy_rolls, item_rolls, stairs_roll)
        },
{
    let ghost data0 = data;
    let range = data.floor_map_size();
    let layout = match generate_cave(range, MAX_ATTEMPTS) {
        Some(l) => l,
        None => return None,
    };
    let enemy_rolls = draw_rolls(data.floor_enemy_count());
    let zone_rolls = draw_rolls(data.floor_item_count());
    let item_kinds = draw_rolls(data.floor_item_count());
    let mut item_rolls: Vec<(u32, u32)> = Vec::new();
    let mut i: usize = 0;
    while i < zone_rolls.len()
        invariant
            zone_rolls@.len() == item_kinds@.len(),
            0 <= i <= zone_rolls@.len(),
            item_rolls@.len() == i,
        decreases zone_rolls@.len() - i,
    {
        item_rolls.push((zone_rolls[i], item_kinds[i]));
        i = i + 1;
    }
    let plan = plan_spawns(layout.zones, &data, &enemy_rolls, &item_rolls);
    let stairs_roll = rand::random::<u32>();
    let ghost plan0 = plan@;
    let d = build_floor(&layout, data, plan, stairs_roll);
    proof {
        assert(built_from(&d, &data0, &layout, plan0, enemy_rolls@, item_rolls@, stairs_roll));
    }
    Some(d)
}

impl Dungeon {
    /// The progress carried to the next floor: the player's hit points (its
    /// first entity, alive or not), the next floor number, an empty
    /// inventory; level and experience are kept.
    pub fn cleanup(&self) -> (r: GameData)
        requires
            self.data.wf(),
        ensures
            r.wf(),
            r.previous_hp == self.first_player_health(0),
            r.floor == crate::events::sat_add_u32(self.data.floor, 1),
            forall|j: int| 0 <= j < crate::progression::INVENTORY_SLOTS ==> r.inventory@[j] is None,
            r.selected is None,
            r.level == self.data.level,
            r.current_xp == self.data.current_xp,
            r.needed_xp == self.data.needed_xp,
    {
        let mut health: Option<Health> = None;
        let n = self.entities.len();
        let mut i: usize = 0;
        let mut done = false;
        while i < n && !done
            invariant
                n == self.entities@.len(),
                0 <= i <= n,
                done ==> health == self.first_player_health(0),
                !done ==> self.first_player_health(0) == self.first_player_health(i as int) && health is None,
            decreases n - i,
        {
            if matches!(self.entities[i].kind, Kind::Player) {
                health = self.entities[i].health;
                done = true;
            }
            i = i + 1;
        }
        let mut next = GameData::default();
        next.previous_hp = health;
        next.floor = self.data.floor.saturating_add(1);
        next.level = self.data.level;
        next.current_xp = self.data.current_xp;
        next.needed_xp = self.data.needed_xp;
        next
    }

    /// Health of the first entity tagged as the player at or after `i`.
    pub open spec fn first_player_health(&self, i: int) -> Option<Health>
        decreases self.entities@.len() - i,
    {
        if i < 0 || i >= self.entities@.len() {
            None
        } else if self.entities@[i].kind is Player {
            self.entities@[i].health
        } else {
            self.first_player_health(i + 1)
        }
    }
}

/// The progress after a return to the menu: that of a new game.
pub fn cleanup_log_and_inventory() -> (r: GameData)
    ensures
        r.wf(),
        forall|j: int| 0 <= j < crate::progression::INVENTORY_SLOTS ==> r.inventory@[j] is None,
        r.selected is None,
        r.previous_hp is None,
        r.floor == 1,
        r.level == 1,
        r.current_xp == 0,
        r.needed_xp == 3,
{
    GameData::default()
}


/// What follows a turn, by the phase the events asked for.
#[derive(Clone, Copy, Debug, PartialEq, Eq, Structural)]
pub enum Transition {
    /// The floor goes on.
    Stay,
    /// A new floor is to be generated with this progress.
    Descend,
    /// The game is over; a new one starts from the menu.
    ExitToMenu,
}

impl Dungeon {
    /// Carries out the phase change the last turn asked for: a world update
    /// hands the turn on within the floor; a descent or an exit ends the
    /// floor, and the progress to build the next one from is returned (the
    /// carried progress for a descent, that of a new game for an exit).
    pub fn after_turn(&mut self) -> (r: (Transition, Option<GameData>))
        requires
            old(self).wf(),
        ensures
            final(self).wf(),
            old(self).state == AppState::DungeonCrawl(TurnState::WorldUpdate) ==> {
                &&& r == (Transition::Stay, None::<GameData>)
                &&& final(self).state == AppState::DungeonCrawl(TurnState::Turn)
                &&& final(self).entities == old(self).entities
            },
            old(self).state == AppState::DungeonCrawlDescend ==> r.0 == Transition::Descend && r.1 is Some
                && r.1->0.previous_hp == old(self).first_player_health(0)
                && r.1->0.floor == crate::events::sat_add_u32(old(self).data.floor, 1)
                && r.1->0.level == old(self).data.level,
            old(self).state == AppState::DungeonCrawlExitToMenu ==> r.0 == Transition::ExitToMenu && r.1 is Some
                && r.1->0.floor == 1 && r.1->0.level == 1 && r.1->0.previous_hp is None,
            !(old(self).state == AppState::DungeonCrawl(TurnState::WorldUpdate) || old(self).state == AppState::DungeonCrawlDescend
                || old(self).state == AppState::DungeonCrawlExitToMenu) ==> r == (Transition::Stay, None::<GameData>)
                && *final(self) == *old(self),
    {
        match self.state {
            AppState::DungeonCrawl(TurnState::WorldUpdate) => {
                self.world_update();
                (Transition::Stay, None)
            },
            AppState::DungeonCrawlDescend => (Transition::Descend, Some(self.cleanup())),
            AppState::DungeonCrawlExitToMenu => (Transition::ExitToMenu, Some(cleanup_log_and_inventory())),
            _ => (Transition::Stay, None),
        }
    }
}

} // verus!
