//! Entities and the components they carry.
use vstd::prelude::*;
use crate::grid::GridPosition;

verus! {

/// An entity is an index into the entity table of a dungeon.
pub type Entity = usize;

/// A consumable, with its potency.
#[derive(Clone, Copy, Debug, PartialEq, Eq, Hash, Structural)]
pub enum Item {
    HealthPotion(i32),
    ScrollOfLightning(i32),
    ScrollOfParalysis(i32),
    ScrollOfFireball(i32),
}

/// Hit points.
#[derive(Clone, Copy, Debug, PartialEq, Eq, Structural)]
pub struct Health {
    pub current: i32,
    pub max: i32,
}

/// `v` brought into the range of `i32`.
pub open spec fn clamp_i32(v: int) -> int {
    if v < i32::MIN { i32::MIN as int } else if v > i32::MAX { i32::MAX as int } else { v }
}

pub fn sat_add(a: i32, b: i32) -> (r: i32)
    ensures
        r == clamp_i32(a + b),
{
    let s: i64 = a as i64 + b as i64;
    if s < i32::MIN as i64 {
        i32::MIN
    } else if s > i32::MAX as i64 {
        i32::MAX
    } else {
        s as i32
    }
}

pub fn sat_sub(a: i32, b: i32) -> (r: i32)
    ensures
        r == clamp_i32(a - b),
{
    let s: i64 = a as i64 - b as i64;
    if s < i32::MIN as i64 {
        i32::MIN
    } else if s > i32::MAX as i64 {
        i32::MAX
    } else {
        s as i32
    }
}

impl Health {
    pub fn new(current: i32, max: i32) -> (r: Self)
        ensures
            r == (Health { current, max }),
    {
        Health { current, max }
    }

    pub open spec fn spec_healed(self, amount: i32) -> Health {
        Health {
            current: if clamp_i32(self.current + amount) < self.max {
                clamp_i32(self.current + amount) as i32
            } else {
                self.max
            },
            max: self.max,
        }
    }

    /// Adds `amount`, never above the maximum.
    pub fn healed(self, amount: i32) -> (r: Health)
        ensures
            r == self.spec_healed(amount),
    {
        let c = sat_add(self.current, amount);
        Health { current: if c < self.max { c } else { self.max }, max: self.max }
    }

    pub open spec fn spec_damaged(self, damage: i32) -> Health {
        Health { current: clamp_i32(self.current - damage) as i32, max: self.max }
    }

    /// Subtracts `damage`.
    pub fn damaged(self, damage: i32) -> (r: Health)
        ensures
            r == self.spec_damaged(damage),
    {
        Health { current: sat_sub(self.current, damage), max: self.max }
    }
}

/// What an entity is: the capability tags it carries.
#[derive(Clone, Copy, Debug, PartialEq, Eq, Structural)]
pub enum Kind {
    Player,
    Orc,
    Wall,
    Floor,
    Stairs,
    Loot(Item),
}

impl Kind {
    /// Player or enemy: an entity that takes turns.
    pub open spec fn spec_is_actor(self) -> bool {
        self is Player || self is Orc
    }

    pub fn is_actor(&self) -> (r: bool)
        ensures
            r == self.spec_is_actor(),
    {
        match self {
            Kind::Player | Kind::Orc => true,
            _ => false,
        }
    }

    pub open spec fn spec_is_tile(self) -> bool {
        self is Wall || self is Floor || self is Stairs
    }

    pub fn is_tile(&self) -> (r: bool)
        ensures
            r == self.spec_is_tile(),
    {
        match self {
            Kind::Wall | Kind::Floor | Kind::Stairs => true,
            _ => false,
        }
    }
}

/// One entity: its tags and optional components.
#[derive(Clone, Copy, Debug, PartialEq, Eq, Structural)]
pub struct EntityRecord {
    pub kind: Kind,
    pub alive: bool,
    pub position: Option<GridPosition>,
    pub health: Option<Health>,
    pub paralyzed: Option<i32>,
    pub blocks_movement: bool,
    pub blocks_vision: bool,
}

impl EntityRecord {
    /// A wall tile: blocks movement and vision.
    pub fn wall(x: i32, y: i32) -> (r: Self)
        ensures
            r == (EntityRecord { kind: Kind::Wall, alive: true, position: Some(GridPosition { x, y }),
                health: None, paralyzed: None, blocks_movement: true, blocks_vision: true }),
    {
        EntityRecord { kind: Kind::Wall, alive: true, position: Some(GridPosition { x, y }),
            health: None, paralyzed: None, blocks_movement: true, blocks_vision: true }
    }

    /// A floor tile.
    pub fn floor(x: i32, y: i32) -> (r: Self)
        ensures
            r == (EntityRecord { kind: Kind::Floor, alive: true, position: Some(GridPosition { x, y }),
                health: None, paralyzed: None, blocks_movement: false, blocks_vision: false }),
    {
        EntityRecord { kind: Kind::Floor, alive: true, position: Some(GridPosition { x, y }),
            health: None, paralyzed: None, blocks_movement: false, blocks_vision: false }
    }

    /// The stairs down.
    pub fn stairs(x: i32, y: i32) -> (r: Self)
        ensures
            r == (EntityRecord { kind: Kind::Stairs, alive: true, position: Some(GridPosition { x, y }),
                health: None, paralyzed: None, blocks_movement: false, blocks_vision: false }),
    {
        EntityRecord { kind: Kind::Stairs, alive: true, position: Some(GridPosition { x, y }),
            health: None, paralyzed: None, blocks_movement: false, blocks_vision: false }
    }

    /// An orc with 3 of 3 hit points; it blocks movement.
    pub fn orc(position: GridPosition) -> (r: Self)
        ensures
            r == (EntityRecord { kind: Kind::Orc, alive: true, position: Some(position),
                health: Some(Health { current: 3, max: 3 }), paralyzed: None, blocks_movement: true,
                blocks_vision: false }),
    {
        EntityRecord { kind: Kind::Orc, alive: true, position: Some(position),
            health: Some(Health { current: 3, max: 3 }), paralyzed: None, blocks_movement: true,
            blocks_vision: false }
    }

    /// The player, with the hit points carried over from the previous floor, or 8 of 8.
    pub fn player(position: GridPosition, previous_hp: Option<Health>) -> (r: Self)
        ensures
            r == (EntityRecord { kind: Kind::Player, alive: true, position: Some(position),
                health: Some(match previous_hp { Some(h) => h, None => Health { current: 8, max: 8 } }),
                paralyzed: None, blocks_movement: false, blocks_vision: false }),
    {
        let health = match previous_hp {
            Some(h) => h,
            None => Health { current: 8, max: 8 },
        };
        EntityRecord { kind: Kind::Player, alive: true, position: Some(position),
            health: Some(health), paralyzed: None, blocks_movement: false, blocks_vision: false }
    }

    /// An item lying on the floor.
    pub fn item(position: GridPosition, item: Item) -> (r: Self)
        ensures
            r == (EntityRecord { kind: Kind::Loot(item), alive: true, position: Some(position),
                health: None, paralyzed: None, blocks_movement: false, blocks_vision: false }),
    {
        EntityRecord { kind: Kind::Loot(item), alive: true, position: Some(position),
            health: None, paralyzed: None, blocks_movement: false, blocks_vision: false }
    }
}


/// `cap` is `name` with its first letter, an ASCII lower-case letter, made
/// upper-case.
pub open spec fn capitalizes(name: Seq<char>, cap: Seq<char>) -> bool {
    &&& name.len() > 0
    &&& cap.len() == name.len()
    &&& cap.drop_first() == name.drop_first()
    &&& 'a' <= name[0] <= 'z'
    &&& (cap[0] as u32) + 32 == (name[0] as u32)
}

impl Kind {
    /// The display name of an entity of this kind.
    pub fn name(&self) -> (r: &'static str)
        ensures
            r@ == self.name_spec(),
    {
        let r = match self {
            Kind::Player => "player",
            Kind::Orc => "orc",
            Kind::Wall => "wall",
            Kind::Floor => "floor",
            Kind::Stairs => "stairs",
            Kind::Loot(Item::HealthPotion(_)) => "health potion",
            Kind::Loot(Item::ScrollOfLightning(_)) => "scroll of lightning",
            Kind::Loot(Item::ScrollOfParalysis(_)) => "scroll of paralysis",
            Kind::Loot(Item::ScrollOfFireball(_)) => "scroll of fireball",
        };
        r
    }

    /// The display name with its first letter capitalized.
    pub fn capitalized(&self) -> (r: &'static str)
        ensures
            capitalizes(self.name_spec(), r@),
    {
        let r = match self {
            Kind::Player => "Player",
            Kind::Orc => "Orc",
            Kind::Wall => "Wall",
            Kind::Floor => "Floor",
            Kind::Stairs => "Stairs",
            Kind::Loot(Item::HealthPotion(_)) => "Health potion",
            Kind::Loot(Item::ScrollOfLightning(_)) => "Scroll of lightning",
            Kind::Loot(Item::ScrollOfParalysis(_)) => "Scroll of paralysis",
            Kind::Loot(Item::ScrollOfFireball(_)) => "Scroll of fireball",
        };
        proof {
            reveal_strlit("player");
            reveal_strlit("orc");
            reveal_strlit("wall");
            reveal_strlit("floor");
            reveal_strlit("stairs");
            reveal_strlit("health potion");
            reveal_strlit("scroll of lightning");
            reveal_strlit("scroll of paralysis");
            reveal_strlit("scroll of fireball");
            reveal_strlit("Player");
            reveal_strlit("Orc");
            reveal_strlit("Wall");
            reveal_strlit("Floor");
            reveal_strlit("Stairs");
            reveal_strlit("Health potion");
            reveal_strlit("Scroll of lightning");
            reveal_strlit("Scroll of paralysis");
            reveal_strlit("Scroll of fireball");
            assert(r@.drop_first() =~= self.name_spec().drop_first());
        }
        r
    }

    /// The display name of an entity of this kind.
    pub open spec fn name_spec(self) -> Seq<char> {
        match self {
            Kind::Player => "player"@,
            Kind::Orc => "orc"@,
            Kind::Wall => "wall"@,
            Kind::Floor => "floor"@,
            Kind::Stairs => "stairs"@,
            Kind::Loot(Item::HealthPotion(_)) => "health potion"@,
            Kind::Loot(Item::ScrollOfLightning(_)) => "scroll of lightning"@,
            Kind::Loot(Item::ScrollOfParalysis(_)) => "scroll of paralysis"@,
            Kind::Loot(Item::ScrollOfFireball(_)) => "scroll of fireball"@,
        }
    }
}

} // verus!
