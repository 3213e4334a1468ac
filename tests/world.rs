use roguelike::dungeon::Dungeon;
use roguelike::entity::{EntityRecord, Health, Item};
use roguelike::fov::{fov_circle, trace_ray};
use roguelike::generation::{
    cell_from_roll, flood_fill, generate_cave, select_largest_cave, split_into_zones, TileType, MAP_SIZE, MIN_ZONES,
};
use roguelike::grid::{Array2D, GridPosition};
use roguelike::level::{zone_for_roll, FLOOR_SIZE};
use roguelike::pathfind::{heuristic, isqrt};
use roguelike::progression::{GameData, LogEntry, Logs};
use roguelike::world_map::{TileFlags, WorldMap};

fn pos(x: i32, y: i32) -> GridPosition {
    GridPosition { x, y }
}

fn floor_with_walls(w: i32, h: i32, walls: &[(i32, i32)]) -> Dungeon {
    let map = WorldMap::new(w, h, pos(w - 1, h - 1));
    let mut d = Dungeon::new(map, GameData::default());
    for x in 0..w {
        for y in 0..h {
            if walls.contains(&(x, y)) {
                d.spawn(EntityRecord::wall(x, y));
            } else {
                d.spawn(EntityRecord::floor(x, y));
            }
        }
    }
    d
}

#[test]
fn diagonal_wall_corner_blocks_view() {
    let mut d = floor_with_walls(6, 6, &[(1, 0), (0, 1)]);
    d.spawn(EntityRecord::player(pos(0, 0), None));
    d.update_world_map();
    d.player_fov();
    let t = &d.map.tiles.elems;
    assert!(t[0][0].in_view);
    assert!(t[1][0].in_view);
    assert!(t[0][1].in_view);
    for (x, y) in [(1, 1), (2, 2), (3, 3), (2, 1), (1, 2), (4, 0), (0, 4)] {
        assert!(!t[x][y].in_view, "({}, {}) is seen through the corner", x, y);
    }
    assert!(t[1][0].explored && !t[2][2].explored);
}

#[test]
fn ray_stops_at_diagonal_corner() {
    let mut t = Array2D::with_elem(4, 4, TileFlags::empty());
    t.elems[1][2].blocks_vision = true;
    t.elems[2][1].blocks_vision = true;
    trace_ray(&mut t, (1, 1), &vec![(1, 1), (2, 2), (3, 3)]);
    assert!(t.elems[1][1].in_view);
    assert!(!t.elems[2][2].in_view);
    assert!(!t.elems[3][3].in_view);
}

#[test]
fn ray_marks_blocking_neighbours_outward() {
    let mut t = Array2D::with_elem(4, 4, TileFlags::empty());
    t.elems[2][1].blocks_vision = true;
    t.elems[3][0].blocks_vision = true;
    trace_ray(&mut t, (0, 0), &vec![(0, 0), (1, 0), (2, 0), (3, 0)]);
    assert!(t.elems[1][0].in_view && t.elems[2][0].in_view && t.elems[3][0].in_view);
    assert!(!t.elems[2][1].in_view);
    assert!(!t.elems[1][1].in_view);
}

#[test]
fn open_room_is_seen_within_radius() {
    let mut d = floor_with_walls(11, 11, &[]);
    d.spawn(EntityRecord::player(pos(5, 5), None));
    d.update_world_map();
    d.player_fov();
    let t = &d.map.tiles.elems;
    assert!(t[5][9].in_view && t[9][5].in_view && t[1][5].in_view && t[5][1].in_view);
    assert!(t[5][10].in_view);
    assert!(!t[0][0].in_view);
}

#[test]
fn visibility_of_tiles_and_entities() {
    let mut d = floor_with_walls(12, 1, &[]);
    let player = d.spawn(EntityRecord::player(pos(0, 0), None));
    let far_orc = d.spawn(EntityRecord::orc(pos(11, 0)));
    d.update_world_map();
    d.player_fov();
    assert!(d.visible(player));
    assert!(!d.visible(far_orc));
    assert!(d.visible(1));
    assert!(!d.visible(11));
}

#[test]
fn fov_circle_points() {
    let pts = fov_circle(10, 20, 4);
    assert_eq!(pts.len(), 8 * 5 + 8 * 3);
    assert_eq!(&pts[0..8], &[(10, 24), (10, 24), (10, 16), (10, 16), (14, 20), (6, 20), (14, 20), (6, 20)]);
    assert_eq!(pts[8], (11, 24));
    assert_eq!(pts[40], (10, 25));
    assert_eq!(pts[63], (5, 18));
}

#[test]
fn pathfinding_routes_around_walls_and_repeats() {
    let mut d = floor_with_walls(5, 3, &[(1, 0), (1, 1)]);
    d.update_world_map();
    let first = d.map.pathfind(pos(0, 0), pos(2, 0)).expect("a route exists");
    let second = d.map.pathfind(pos(0, 0), pos(2, 0)).expect("a route exists");
    assert_eq!(first, second);
    assert_eq!(first.1, 6);
    assert_eq!(first.0.first(), Some(&pos(0, 0)));
    assert_eq!(first.0.last(), Some(&pos(2, 0)));
    assert_eq!(first.0.len(), 7);
}

#[test]
fn pathfinding_pays_five_through_occupied_cell() {
    let mut d = floor_with_walls(3, 1, &[]);
    d.spawn(EntityRecord::orc(pos(1, 0)));
    d.update_world_map();
    let (path, cost) = d.map.pathfind(pos(0, 0), pos(2, 0)).unwrap();
    assert_eq!(path, vec![pos(0, 0), pos(1, 0), pos(2, 0)]);
    assert_eq!(cost, 6);
}

#[test]
fn pathfinding_fails_when_walled_off() {
    let mut d = floor_with_walls(3, 1, &[(1, 0)]);
    d.update_world_map();
    assert_eq!(d.map.pathfind(pos(0, 0), pos(2, 0)), None);
}

#[test]
fn heuristic_is_floored_euclidean() {
    assert_eq!(heuristic((0, 0), (3, 4)), 5);
    assert_eq!(heuristic((1, 1), (3, 2)), 2);
    assert_eq!(heuristic((2, 2), (2, 2)), 0);
    assert_eq!(isqrt(24), 4);
    assert_eq!(isqrt(25), 5);
    assert_eq!(isqrt(u64::MAX as u128), 4294967295);
}

#[test]
fn cell_rolls_follow_spawn_chance() {
    assert_eq!(cell_from_roll(0), TileType::Alive(0));
    assert_eq!(cell_from_roll(44), TileType::Alive(0));
    assert_eq!(cell_from_roll(45), TileType::Dead);
    assert_eq!(cell_from_roll(144), TileType::Alive(0));
}

fn grid_from(cells: &[(i32, i32)]) -> Array2D<TileType> {
    let mut m = Array2D::with_elem(MAP_SIZE, MAP_SIZE, TileType::Dead);
    for &(x, y) in cells {
        m.elems[x as usize][y as usize] = TileType::Alive(0);
    }
    m
}

#[test]
fn flood_fill_labels_one_component() {
    let mut m = grid_from(&[(5, 5), (5, 6), (6, 6), (10, 10), (6, 7)]);
    let n = flood_fill(&mut m, (5, 5), TileType::Alive(1), None);
    assert_eq!(n, 4);
    assert_eq!(m.elems[6][7], TileType::Alive(1));
    assert_eq!(m.elems[10][10], TileType::Alive(0));
}

#[test]
fn flood_fill_respects_distance() {
    let cells: Vec<(i32, i32)> = (2..20).map(|x| (x, 5)).collect();
    let mut m = grid_from(&cells);
    let n = flood_fill(&mut m, (2, 5), TileType::Alive(3), Some(10));
    assert_eq!(n, 11);
    assert_eq!(m.elems[12][5], TileType::Alive(3));
    assert_eq!(m.elems[13][5], TileType::Alive(0));
}

#[test]
fn largest_cave_is_kept() {
    let mut cells: Vec<(i32, i32)> = vec![(3, 3), (3, 4)];
    for x in 10..20 {
        cells.push((x, 10));
    }
    let mut m = grid_from(&cells);
    assert_eq!(select_largest_cave(&mut m), 10);
    assert_eq!(m.elems[3][3], TileType::Dead);
    assert_eq!(m.elems[15][10], TileType::Alive(0));
}

#[test]
fn zones_split_long_corridor() {
    let cells: Vec<(i32, i32)> = (2..38).map(|x| (x, 5)).collect();
    let mut m = grid_from(&cells);
    assert_eq!(split_into_zones(&mut m), 4);
    assert_eq!(m.elems[2][5], TileType::Alive(1));
    assert_eq!(m.elems[12][5], TileType::Alive(1));
    assert_eq!(m.elems[13][5], TileType::Alive(2));
    assert_eq!(m.elems[37][5], TileType::Alive(4));
}

#[test]
fn generated_cave_meets_acceptance_bounds() {
    let layout = generate_cave((200, 400), 1000).expect("a cave is accepted");
    let alive = layout.tiles.elems.iter().flatten().filter(|t| matches!(t, TileType::Alive(_))).count();
    assert_eq!(alive as u32, layout.size);
    assert!(layout.size >= 200 && layout.size <= 400);
    assert!(layout.zones >= MIN_ZONES);
}

#[test]
fn generated_floor_is_well_placed() {
    let d = roguelike::level::generate(GameData::default()).expect("a floor is generated");
    assert_eq!(d.map.tiles.size(), (FLOOR_SIZE as usize, FLOOR_SIZE as usize));
    let orcs = d.entities.iter().filter(|r| r.kind == roguelike::entity::Kind::Orc).count();
    assert!(orcs <= 3);
    assert_eq!(d.order.0.len(), orcs + 1);
    for (e, r) in d.entities.iter().enumerate() {
        if let Some(p) = r.position {
            assert!(d.map.entities.elems[p.x as usize][p.y as usize].contains(&e));
        }
    }
}

#[test]
fn zone_rolls_skip_player_zone() {
    assert_eq!(zone_for_roll(5, 0), 2);
    assert_eq!(zone_for_roll(5, 3), 5);
    assert_eq!(zone_for_roll(5, 4), 2);
}

#[test]
fn floor_tables() {
    let mut data = GameData::default();
    assert_eq!(data.floor_map_size(), (200, 400));
    assert_eq!(data.floor_enemy_count(), 3);
    assert_eq!(data.floor_item_count(), 2);
    assert_eq!(data.floor_item(7), Item::HealthPotion(4));
    assert_eq!(data.floor_item(13), Item::HealthPotion(4));
    data.floor = 2;
    assert_eq!(data.floor_enemy_count(), 4);
    assert_eq!(data.floor_item(12), Item::ScrollOfLightning(2));
    data.floor = 4;
    assert_eq!(data.floor_map_size(), (400, 600));
    assert_eq!(data.floor_enemy_count(), 6);
    assert_eq!(data.floor_item_count(), 4);
    assert_eq!(data.floor_item(17), Item::ScrollOfFireball(1));
    assert_eq!(data.floor_item(24), Item::ScrollOfParalysis(4));
}

#[test]
fn log_keeps_six_newest_first() {
    let mut logs = Logs::new();
    for i in 0..8 {
        logs.push(LogEntry::Died(i));
    }
    assert_eq!(logs.entries.len(), 6);
    assert_eq!(logs.entries[0], LogEntry::Died(7));
    assert_eq!(logs.entries[5], LogEntry::Died(2));
}

#[test]
fn health_arithmetic() {
    assert_eq!(Health::new(4, 8).healed(4), Health::new(8, 8));
    assert_eq!(Health::new(4, 8).healed(10), Health::new(8, 8));
    assert_eq!(Health::new(4, 8).healed(2), Health::new(6, 8));
    assert_eq!(Health::new(3, 3).damaged(2), Health::new(1, 3));
    assert_eq!(Health::new(i32::MIN + 1, 3).damaged(5), Health::new(i32::MIN, 3));
}

#[test]
fn default_game_data() {
    let d = GameData::default();
    assert_eq!(d.inventory, vec![None; 5]);
    assert_eq!((d.floor, d.level, d.current_xp, d.needed_xp), (1, 1, 0, 3));
    assert!(roguelike::level::cleanup_log_and_inventory().previous_hp.is_none());
}

#[test]
fn array_access() {
    let a = Array2D::with_elem(3, 2, 7u8);
    assert_eq!(a.size(), (3, 2));
    assert_eq!(a.get(2, 1), Some(&7));
    assert_eq!(a.get(3, 0), None);
    assert_eq!(a.get(-1, 0), None);
    assert!(Array2D::from_vecs(vec![vec![1u8, 2], vec![3]]).is_none());
    assert!(Array2D::from_vecs(vec![vec![1u8, 2], vec![3, 4]]).is_some());
}

#[test]
fn line_of_sight_is_blocked_by_walls_and_corners() {
    let mut d = floor_with_walls(6, 6, &[(2, 0), (3, 4), (4, 3)]);
    d.update_world_map();
    assert!(!d.map.line_of_sight(pos(0, 0), pos(4, 0)));
    assert!(d.map.line_of_sight(pos(0, 1), pos(5, 1)));
    assert!(!d.map.line_of_sight(pos(0, 0), pos(5, 5)));
    assert!(d.map.line_of_sight(pos(0, 0), pos(3, 3)));
    assert!(!d.map.line_of_sight(pos(0, 0), pos(2, 0)));
}

#[test]
fn flood_fill_leaves_unconnected_cave() {
    let mut m = grid_from(&[(5, 5), (5, 6), (7, 7), (7, 8)]);
    let n = flood_fill(&mut m, (7, 7), TileType::Alive(2), None);
    assert_eq!(n, 2);
    assert_eq!(m.elems[5][5], TileType::Alive(0));
    assert_eq!(m.elems[7][8], TileType::Alive(2));
}

#[test]
fn try_cave_rejects_empty_grid() {
    let m = Array2D::with_elem(MAP_SIZE, MAP_SIZE, TileType::Dead);
    assert!(roguelike::generation::try_cave(m, (1, 400)).is_none());
}

#[test]
fn largest_cave_tie_goes_to_first() {
    let mut m = grid_from(&[(3, 3), (3, 4), (10, 10), (10, 11)]);
    assert_eq!(select_largest_cave(&mut m), 2);
    assert_eq!(m.elems[3][3], TileType::Alive(0));
    assert_eq!(m.elems[10][10], TileType::Dead);
}

#[test]
fn built_floor_has_floor_walls_and_stairs() {
    let d = roguelike::level::generate(GameData::default()).expect("a floor is generated");
    let s = d.map.stairs;
    let at_stairs = &d.map.entities.elems[s.x as usize][s.y as usize];
    assert!(at_stairs.iter().any(|e| d.entities[*e].kind == roguelike::entity::Kind::Stairs));
    let walls = d.entities.iter().filter(|r| r.kind == roguelike::entity::Kind::Wall).count();
    let floors = d.entities.iter().filter(|r| r.kind == roguelike::entity::Kind::Floor).count();
    assert!(walls > 0 && floors >= 199);
}

#[test]
fn display_names() {
    let k = roguelike::entity::Kind::Orc;
    assert_eq!(k.name(), "orc");
    assert_eq!(k.capitalized(), "Orc");
    let s = roguelike::entity::Kind::Loot(Item::ScrollOfFireball(1));
    assert_eq!(s.capitalized(), "Scroll of fireball");
}

#[test]
fn flood_fill_with_rock_removes_a_cave() {
    let mut m = grid_from(&[(5, 5), (5, 6), (9, 9)]);
    let n = flood_fill(&mut m, (5, 5), TileType::Dead, None);
    assert_eq!(n, 2);
    assert_eq!(m.elems[5][6], TileType::Dead);
    assert_eq!(m.elems[9][9], TileType::Alive(0));
}

#[test]
fn zones_are_seeded_in_scan_order() {
    let mut cells: Vec<(i32, i32)> = (2..30).map(|x| (x, 5)).collect();
    cells.push((20, 6));
    let mut m = grid_from(&cells);
    assert_eq!(split_into_zones(&mut m), 3);
    assert_eq!(m.elems[20][6], TileType::Alive(2));
    assert_eq!(m.elems[24][5], TileType::Alive(3));
}
