use roguelike::level::Transition;
use roguelike::control::{Command, PlayerInput};
use roguelike::dungeon::Dungeon;
use roguelike::entity::{EntityRecord, Health, Item, Kind};
use roguelike::events::Ev;
use roguelike::grid::GridPosition;
use roguelike::progression::{AppState, GameData, LogEntry, TurnState};
use roguelike::world_map::WorldMap;

fn pos(x: i32, y: i32) -> GridPosition {
    GridPosition { x, y }
}

fn idle(cursor: GridPosition) -> PlayerInput {
    PlayerInput { command: Command::Idle, left_click: false, right_click: false, cursor }
}

/// A `w` by `h` floor of open tiles.
fn open_floor(w: i32, h: i32) -> Dungeon {
    let map = WorldMap::new(w, h, pos(w - 1, h - 1));
    let mut d = Dungeon::new(map, GameData::default());
    for x in 0..w {
        for y in 0..h {
            d.spawn(EntityRecord::floor(x, y));
        }
    }
    d
}

fn occupants(d: &Dungeon, p: GridPosition) -> Vec<usize> {
    d.map.entities.elems[p.x as usize][p.y as usize].clone()
}

#[test]
fn potion_use_heals_to_max_and_empties_slot() {
    let mut d = open_floor(5, 5);
    let player = d.spawn(EntityRecord::player(pos(2, 2), Some(Health::new(4, 8))));
    let potion = d.spawn(EntityRecord {
        kind: Kind::Loot(Item::HealthPotion(4)),
        alive: true,
        position: None,
        health: None,
        paralyzed: None,
        blocks_movement: false,
        blocks_vision: false,
    });
    d.data.inventory[0] = Some(potion);
    d.world_update();
    assert_eq!(d.current, Some(player));
    assert!(d.map.tiles.elems[2][2].in_view);

    let select = PlayerInput { command: Command::Select(0), left_click: false, right_click: false, cursor: pos(2, 2) };
    assert!(!d.take_turn(select));
    assert_eq!(d.data.selected, Some(0));

    let logs_before = d.logs.entries.len();
    let click = PlayerInput { command: Command::Idle, left_click: true, right_click: false, cursor: pos(2, 2) };
    assert!(d.take_turn(click));
    assert_eq!(d.entities[player].health, Some(Health::new(8, 8)));
    assert_eq!(d.data.inventory[0], None);
    assert_eq!(d.data.selected, None);
    assert_eq!(d.logs.entries.len(), logs_before + 1);
    assert_eq!(d.logs.entries[0], LogEntry::Healed(player, 4));
    assert_eq!(d.state, AppState::DungeonCrawl(TurnState::WorldUpdate));
}

#[test]
fn paralysis_waits_three_turns_then_releases() {
    let mut d = open_floor(3, 3);
    let orc = d.spawn(EntityRecord::orc(pos(1, 1)));
    d.handle_evs(vec![Ev::Paralyze(orc, 4)]);
    assert_eq!(d.entities[orc].paralyzed, Some(4));
    let mut waits = 0;
    for turn in 0..4 {
        d.current = Some(orc);
        let ev = d.paralyzed();
        if ev == Some(Ev::Nothing) {
            waits += 1;
        } else {
            assert_eq!(turn, 3);
            assert_eq!(ev, None);
        }
    }
    assert_eq!(waits, 3);
    assert_eq!(d.entities[orc].paralyzed, None);
}

#[test]
fn paralyzed_actor_only_waits_in_take_turn() {
    let mut d = open_floor(3, 3);
    let orc = d.spawn(EntityRecord::orc(pos(1, 1)));
    d.handle_evs(vec![Ev::Paralyze(orc, 2)]);
    d.current = Some(orc);
    assert!(d.take_turn(idle(pos(0, 0))));
    assert_eq!(d.entities[orc].paralyzed, Some(1));
    d.current = Some(orc);
    assert!(!d.take_turn(idle(pos(0, 0))));
    assert_eq!(d.entities[orc].paralyzed, None);
}

#[test]
fn descent_carries_player_hp() {
    let mut d = open_floor(3, 3);
    d.spawn(EntityRecord::player(pos(1, 1), Some(Health::new(5, 8))));
    let next = d.cleanup();
    assert_eq!(next.previous_hp, Some(Health::new(5, 8)));
    assert_eq!(next.floor, 2);
    assert!(next.inventory.iter().all(|s| s.is_none()));
    let floor2 = roguelike::level::generate(next).expect("a floor is generated");
    let players: Vec<&EntityRecord> = floor2.entities.iter().filter(|r| r.kind == Kind::Player).collect();
    assert_eq!(players.len(), 1);
    assert_eq!(players[0].health, Some(Health::new(5, 8)));
    assert_eq!(floor2.data.floor, 2);
}

#[test]
fn new_game_player_starts_at_eight() {
    let d = roguelike::level::generate(GameData::default()).expect("a floor is generated");
    let player = d.entities.iter().find(|r| r.kind == Kind::Player).unwrap();
    assert_eq!(player.health, Some(Health::new(8, 8)));
}

#[test]
fn move_relocates_between_cells() {
    let mut d = open_floor(4, 4);
    let player = d.spawn(EntityRecord::player(pos(1, 1), None));
    d.handle_evs(vec![Ev::Move(player, pos(1, 1), pos(2, 1))]);
    assert_eq!(d.entities[player].position, Some(pos(2, 1)));
    assert!(!occupants(&d, pos(1, 1)).contains(&player));
    assert_eq!(occupants(&d, pos(2, 1)).iter().filter(|e| **e == player).count(), 1);
}

#[test]
fn kill_removes_from_map_and_order_once() {
    let mut d = open_floor(4, 4);
    let player = d.spawn(EntityRecord::player(pos(0, 0), None));
    let orc = d.spawn(EntityRecord::orc(pos(1, 0)));
    assert_eq!(d.order.0, vec![player, orc]);
    d.handle_evs(vec![Ev::Attack(player, orc, 3), Ev::Attack(player, orc, 3), Ev::Despawn(orc)]);
    assert!(!d.entities[orc].alive);
    assert_eq!(d.entities[orc].position, None);
    assert!(!occupants(&d, pos(1, 0)).contains(&orc));
    assert_eq!(d.order.0, vec![player]);
    assert_eq!(d.entities[orc].health, Some(Health::new(0, 3)));
    assert_eq!(d.data.current_xp, 1);
    let died = d.logs.entries.iter().filter(|m| **m == LogEntry::Died(orc)).count();
    assert_eq!(died, 1);
}

#[test]
fn third_kill_levels_up() {
    let mut d = open_floor(5, 1);
    let player = d.spawn(EntityRecord::player(pos(0, 0), None));
    let a = d.spawn(EntityRecord::orc(pos(1, 0)));
    let b = d.spawn(EntityRecord::orc(pos(2, 0)));
    let c = d.spawn(EntityRecord::orc(pos(3, 0)));
    d.handle_evs(vec![Ev::Attack(player, a, 5), Ev::Attack(player, b, 5), Ev::Attack(player, c, 5)]);
    assert_eq!(d.data.level, 2);
    assert_eq!(d.data.current_xp, 0);
    assert_eq!(d.data.needed_xp, 5);
    assert_eq!(d.entities[player].health, Some(Health::new(8, 10)));
    assert!(d.logs.entries.contains(&LogEntry::LevelUp));
    assert_eq!(d.order.0, vec![player]);
}

#[test]
fn player_death_exits_to_menu() {
    let mut d = open_floor(3, 1);
    let player = d.spawn(EntityRecord::player(pos(0, 0), Some(Health::new(1, 8))));
    let orc = d.spawn(EntityRecord::orc(pos(1, 0)));
    d.handle_evs(vec![Ev::Attack(orc, player, 1)]);
    assert_eq!(d.state, AppState::DungeonCrawlExitToMenu);
    assert!(!d.entities[player].alive);
    assert_eq!(d.order.0, vec![orc]);
}

#[test]
fn heal_event_clamps_at_max() {
    let mut d = open_floor(2, 2);
    let player = d.spawn(EntityRecord::player(pos(0, 0), Some(Health::new(6, 8))));
    d.handle_evs(vec![Ev::Heal(player, 4)]);
    assert_eq!(d.entities[player].health, Some(Health::new(8, 8)));
    assert_eq!(d.logs.entries[0], LogEntry::Healed(player, 4));
}

#[test]
fn pick_up_and_drop() {
    let mut d = open_floor(3, 3);
    let player = d.spawn(EntityRecord::player(pos(1, 1), None));
    let scroll = d.spawn(EntityRecord::item(pos(1, 1), Item::ScrollOfLightning(2)));
    d.current = Some(player);
    let evs = d.player_control(PlayerInput { command: Command::PickUp, left_click: false, right_click: false, cursor: pos(0, 0) });
    assert_eq!(evs, vec![Ev::PickUpItem(player, scroll)]);
    d.handle_evs(evs);
    assert_eq!(d.data.inventory[0], Some(scroll));
    assert_eq!(d.entities[scroll].position, None);
    assert!(!occupants(&d, pos(1, 1)).contains(&scroll));
    assert_eq!(d.logs.entries[0], LogEntry::PickedUp(scroll));

    d.handle_evs(vec![Ev::DropItem(player, scroll, pos(2, 2))]);
    assert_eq!(d.entities[scroll].position, Some(pos(2, 2)));
    assert_eq!(d.logs.entries[0], LogEntry::LandsOnFloor(scroll));
}

#[test]
fn drop_into_wall_destroys_item() {
    let mut d = open_floor(3, 3);
    let wall = d.spawn(EntityRecord::wall(2, 2));
    let item = d.spawn(EntityRecord {
        kind: Kind::Loot(Item::ScrollOfFireball(1)),
        alive: true,
        position: None,
        health: None,
        paralyzed: None,
        blocks_movement: false,
        blocks_vision: false,
    });
    d.update_world_map();
    assert!(d.map.tiles.elems[2][2].blocks_movement);
    d.handle_evs(vec![Ev::DropItem(0, item, pos(2, 2))]);
    assert!(!d.entities[item].alive);
    assert_eq!(d.logs.entries[0], LogEntry::SlamsIntoWall(item));
    assert!(d.entities[wall].alive);
}

#[test]
fn update_world_map_derives_flags() {
    let mut d = open_floor(3, 1);
    d.spawn(EntityRecord::wall(0, 0));
    d.spawn(EntityRecord::orc(pos(1, 0)));
    d.update_world_map();
    let t = &d.map.tiles.elems;
    assert!(t[0][0].blocks_movement && t[0][0].blocks_vision && t[0][0].blocks_pathfinding);
    assert!(t[1][0].blocks_movement && !t[1][0].blocks_vision && !t[1][0].blocks_pathfinding);
    assert!(!t[2][0].blocks_movement && !t[2][0].blocks_vision);
}

#[test]
fn initiative_rotates_front_to_back() {
    let mut d = open_floor(3, 1);
    let p = d.spawn(EntityRecord::player(pos(0, 0), None));
    let a = d.spawn(EntityRecord::orc(pos(1, 0)));
    let b = d.spawn(EntityRecord::orc(pos(2, 0)));
    d.handle_initiative();
    assert_eq!(d.current, Some(p));
    assert_eq!(d.order.0, vec![a, b, p]);
    d.handle_initiative();
    assert_eq!(d.current, Some(a));
    assert_eq!(d.order.0, vec![b, p, a]);
}

#[test]
fn stepping_into_orc_attacks_it() {
    let mut d = open_floor(3, 1);
    let p = d.spawn(EntityRecord::player(pos(0, 0), None));
    let orc = d.spawn(EntityRecord::orc(pos(1, 0)));
    d.update_world_map();
    d.current = Some(p);
    let evs = d.player_control(PlayerInput { command: Command::Right, left_click: false, right_click: false, cursor: pos(0, 0) });
    assert_eq!(evs, vec![Ev::Attack(p, orc, 1)]);
}

#[test]
fn stepping_onto_stairs_descends() {
    let mut d = open_floor(3, 1);
    let p = d.spawn(EntityRecord::player(pos(1, 0), None));
    d.map.stairs = pos(2, 0);
    d.current = Some(p);
    let evs = d.player_control(PlayerInput { command: Command::Right, left_click: false, right_click: false, cursor: pos(0, 0) });
    assert_eq!(evs, vec![Ev::Descend]);
    d.handle_evs(evs);
    assert_eq!(d.state, AppState::DungeonCrawlDescend);
    assert_eq!(d.logs.entries[0], LogEntry::Descended);
}

#[test]
fn quit_exits_to_menu() {
    let mut d = open_floor(2, 1);
    let p = d.spawn(EntityRecord::player(pos(0, 0), None));
    d.current = Some(p);
    let evs = d.player_control(PlayerInput { command: Command::Quit, left_click: false, right_click: false, cursor: pos(0, 0) });
    assert_eq!(evs, vec![Ev::Quit]);
    d.handle_evs(evs);
    assert_eq!(d.state, AppState::DungeonCrawlExitToMenu);
}

#[test]
fn fireball_hits_every_target_in_block() {
    let mut d = open_floor(5, 5);
    let p = d.spawn(EntityRecord::player(pos(0, 0), None));
    let a = d.spawn(EntityRecord::orc(pos(2, 2)));
    let b = d.spawn(EntityRecord::orc(pos(3, 3)));
    let c = d.spawn(EntityRecord::orc(pos(4, 4)));
    let evs = d.blast(p, pos(2, 2), 1);
    assert_eq!(evs, vec![Ev::Attack(p, a, 1), Ev::Attack(p, b, 1)]);
    assert!(!evs.contains(&Ev::Attack(p, c, 1)));
}

#[test]
fn enemy_in_view_walks_toward_player() {
    let mut d = open_floor(5, 1);
    let p = d.spawn(EntityRecord::player(pos(0, 0), None));
    let orc = d.spawn(EntityRecord::orc(pos(3, 0)));
    d.update_world_map();
    d.player_fov();
    d.current = Some(orc);
    assert_eq!(d.enemy_ai(), Some(Ev::Move(orc, pos(3, 0), pos(2, 0))));
    d.handle_evs(vec![Ev::Move(orc, pos(3, 0), pos(2, 0))]);
    d.update_world_map();
    d.player_fov();
    assert_eq!(d.enemy_ai(), Some(Ev::Move(orc, pos(2, 0), pos(1, 0))));
    d.handle_evs(vec![Ev::Move(orc, pos(2, 0), pos(1, 0))]);
    d.update_world_map();
    d.player_fov();
    assert_eq!(d.enemy_ai(), Some(Ev::Attack(orc, p, 1)));
}

#[test]
fn enemy_out_of_view_waits() {
    let mut d = open_floor(12, 1);
    d.spawn(EntityRecord::player(pos(0, 0), None));
    let orc = d.spawn(EntityRecord::orc(pos(11, 0)));
    d.update_world_map();
    d.player_fov();
    d.current = Some(orc);
    assert_eq!(d.enemy_ai(), Some(Ev::Nothing));
}

#[test]
fn fireball_hits_every_occupant_with_health() {
    let mut d = open_floor(3, 3);
    let p = d.spawn(EntityRecord::player(pos(0, 0), None));
    let a = d.spawn(EntityRecord::orc(pos(1, 1)));
    let b = d.spawn(EntityRecord::orc(pos(1, 1)));
    let evs = d.blast(p, pos(1, 1), 1);
    assert!(evs.contains(&Ev::Attack(p, a, 1)));
    assert!(evs.contains(&Ev::Attack(p, b, 1)));
    assert!(evs.contains(&Ev::Attack(p, p, 1)));
    assert_eq!(evs.len(), 3);
}

#[test]
fn after_turn_carries_out_phase_changes() {
    let mut d = open_floor(3, 3);
    let p = d.spawn(EntityRecord::player(pos(1, 1), Some(Health::new(5, 8))));
    d.state = AppState::DungeonCrawl(TurnState::WorldUpdate);
    assert_eq!(d.after_turn().0, Transition::Stay);
    assert_eq!(d.current, Some(p));
    assert_eq!(d.state, AppState::DungeonCrawl(TurnState::Turn));
    d.state = AppState::DungeonCrawlDescend;
    let (t, data) = d.after_turn();
    assert_eq!(t, Transition::Descend);
    let data = data.unwrap();
    assert_eq!((data.floor, data.previous_hp), (2, Some(Health::new(5, 8))));
    d.state = AppState::DungeonCrawlExitToMenu;
    let (t, data) = d.after_turn();
    assert_eq!(t, Transition::ExitToMenu);
    assert_eq!(data.unwrap().floor, 1);
}

#[test]
fn level_up_raises_max_hp_and_logs() {
    let mut d = open_floor(2, 1);
    let player = d.spawn(EntityRecord::player(pos(0, 0), Some(Health::new(4, 8))));
    let orc = d.spawn(EntityRecord::orc(pos(1, 0)));
    d.data.current_xp = 2;
    d.handle_evs(vec![Ev::Attack(player, orc, 3)]);
    assert_eq!(d.entities[player].health, Some(Health::new(4, 10)));
    assert_eq!(d.logs.entries[0], LogEntry::LevelUp);
    assert_eq!(d.logs.entries[1], LogEntry::Died(orc));
    assert_eq!(d.logs.entries[2], LogEntry::Attack(player, orc, 3));
}
