//! Game progression: inventory, experience, floor depth, the event log and
//! the application's phases.
use vstd::prelude::*;
use crate::entity::{Entity, Health, Item};

verus! {

/// Number of inventory slots.
pub const INVENTORY_SLOTS: usize = 5;

/// Number of entries the log keeps.
pub const LOG_LENGTH: usize = 6;

/// Whose move it is within the dungeon crawl.
#[derive(Clone, Copy, Debug, PartialEq, Eq, Hash, Structural)]
pub enum TurnState {
    WorldUpdate,
    Turn,
}

/// The phases of the application.
#[derive(Clone, Copy, Debug, PartialEq, Eq, Hash, Structural)]
pub enum AppState {
    MainMenu,
    WorldGeneration,
    DungeonCrawlEnter,
    DungeonCrawl(TurnState),
    DungeonCrawlExitToMenu,
    DungeonCrawlDescend,
}

/// A narrated event.
#[derive(Clone, Copy, Debug, PartialEq, Eq, Structural)]
pub enum LogEntry {
    Attack(Entity, Entity, i32),
    Died(Entity),
    LevelUp,
    PickedUp(Entity),
    SlamsIntoWall(Entity),
    LandsOnFloor(Entity),
    Healed(Entity, i32),
    Descended,
}

/// The most recent log entries, newest first.
pub struct Logs {
    pub entries: Vec<LogEntry>,
}

impl Logs {
    pub open spec fn wf(&self) -> bool {
        self.entries@.len() <= LOG_LENGTH
    }

    /// The entries after `m` is logged.
    pub open spec fn spec_pushed(s: Seq<LogEntry>, m: LogEntry) -> Seq<LogEntry> {
        let t = seq![m] + s;
        if t.len() > LOG_LENGTH { t.subrange(0, LOG_LENGTH as int) } else { t }
    }

    pub fn new() -> (r: Logs)
        ensures
            r.wf(),
            r.entries@.len() == 0,
    {
        Logs { entries: Vec::new() }
    }

    /// Records `m` as the newest entry, dropping the oldest beyond the bound.
    pub fn push(&mut self, m: LogEntry)
        requires
            old(self).wf(),
        ensures
            final(self).wf(),
            final(self).entries@ == Self::spec_pushed(old(self).entries@, m),
    {
        self.entries.insert(0, m);
        if self.entries.len() > LOG_LENGTH {
            self.entries.truncate(LOG_LENGTH);
        }
        assert(self.entries@ =~= Self::spec_pushed(old(self).entries@, m));
    }
}

/// Progress of the player across turns and floors.
#[derive(Clone, Debug)]
pub struct GameData {
    pub inventory: Vec<Option<Entity>>,
    pub selected: Option<usize>,
    pub previous_hp: Option<Health>,
    pub floor: u32,
    pub level: u32,
    pub current_xp: u32,
    pub needed_xp: u32,
}

/// Range of accepted cave sizes on a floor.
pub open spec fn spec_floor_map_size(floor: u32) -> (u32, u32) {
    if floor >= 4 { (400, 600) } else { (200, 400) }
}

/// Number of enemies placed on a floor.
pub open spec fn spec_floor_enemy_count(floor: u32) -> u32 {
    if floor >= 4 { 6 } else if floor >= 2 { 4 } else { 3 }
}

/// Number of items placed on a floor.
pub open spec fn spec_floor_item_count(floor: u32) -> u32 {
    if floor >= 4 { 4 } else if floor >= 2 { 3 } else { 2 }
}

/// Sum of the chances of the items found on a floor.
pub open spec fn spec_item_chance_total(floor: u32) -> u32 {
    if floor >= 4 { 25 } else if floor >= 2 { 15 } else { 10 }
}

/// The item that a roll picks on a floor: potions weigh 10 from floor 1,
/// lightning 5 from floor 2, fireball and paralysis 5 each from floor 4.
pub open spec fn spec_floor_item(floor: u32, roll: u32) -> Item {
    let r = roll % spec_item_chance_total(floor);
    if r < 10 {
        Item::HealthPotion(4)
    } else if r < 15 {
        Item::ScrollOfLightning(2)
    } else if r < 20 {
        Item::ScrollOfFireball(1)
    } else {
        Item::ScrollOfParalysis(4)
    }
}

impl GameData {
    pub open spec fn wf(&self) -> bool {
        &&& self.inventory@.len() == INVENTORY_SLOTS
        &&& self.selected matches Some(i) ==> i < INVENTORY_SLOTS
    }

    pub fn floor_map_size(&self) -> (r: (u32, u32))
        ensures
            r == spec_floor_map_size(self.floor),
    {
        if self.floor >= 4 { (400, 600) } else { (200, 400) }
    }

    pub fn floor_enemy_count(&self) -> (r: u32)
        ensures
            r == spec_floor_enemy_count(self.floor),
    {
        if self.floor >= 4 { 6 } else if self.floor >= 2 { 4 } else { 3 }
    }

    pub fn floor_item_count(&self) -> (r: u32)
        ensures
            r == spec_floor_item_count(self.floor),
    {
        if self.floor >= 4 { 4 } else if self.floor >= 2 { 3 } else { 2 }
    }

    /// The item that `roll` picks among those found on this floor.
    pub fn floor_item(&self, roll: u32) -> (r: Item)
        ensures
            r == spec_floor_item(self.floor, roll),
    {
        let total: u32 = if self.floor >= 4 { 25 } else if self.floor >= 2 { 15 } else { 10 };
        let r = roll % total;
        if r < 10 {
            Item::HealthPotion(4)
        } else if r < 15 {
            Item::ScrollOfLightning(2)
        } else if r < 20 {
            Item::ScrollOfFireball(1)
        } else {
            Item::ScrollOfParalysis(4)
        }
    }

    /// The first empty inventory slot.
    pub fn first_empty_slot(&self) -> (r: Option<usize>)
        requires
            self.wf(),
        ensures
            r matches Some(i) ==> i < INVENTORY_SLOTS && self.inventory@[i as int] is None
                && forall|j: int| 0 <= j < i ==> self.inventory@[j] is Some,
            r is None ==> forall|j: int| 0 <= j < INVENTORY_SLOTS ==> self.inventory@[j] is Some,
    {
        let mut i: usize = 0;
        while i < INVENTORY_SLOTS
            invariant
                self.wf(),
                0 <= i <= INVENTORY_SLOTS,
                forall|j: int| 0 <= j < i ==> self.inventory@[j] is Some,
            decreases INVENTORY_SLOTS - i,
        {
            if self.inventory[i].is_none() {
                return Some(i);
            }
            i = i + 1;
        }
        None
    }
}

impl Default for GameData {
    /// The state at the start of a game: empty inventory, floor 1, level 1,
    /// no experience, 3 needed for the next level.
    fn default() -> (r: GameData)
        ensures
            r.wf(),
            forall|j: int| 0 <= j < INVENTORY_SLOTS ==> r.inventory@[j] is None,
            r.selected is None,
            r.previous_hp is None,
            r.floor == 1,
            r.level == 1,
            r.current_xp == 0,
            r.needed_xp == 3,
    {
        let mut inventory: Vec<Option<Entity>> = Vec::new();
        let mut i: usize = 0;
        while i < INVENTORY_SLOTS
            invariant
                0 <= i <= INVENTORY_SLOTS,
                inventory@.len() == i,
                forall|j: int| 0 <= j < i ==> inventory@[j] is None,
            decreases INVENTORY_SLOTS - i,
        {
            inventory.push(None);
            i = i + 1;
        }
        GameData {
            inventory,
            selected: None,
            previous_hp: None,
            floor: 1,
            level: 1,
            current_xp: 0,
            needed_xp: 3,
        }
    }
}
} // verus!
