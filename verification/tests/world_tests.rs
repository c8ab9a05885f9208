use life_sim_core::cached_world::{chunk_request_fits, parse_chunk_coords, CachedWorld, ChunkLayer};
use life_sim_core::entities::reproduction::Sex;
use life_sim_core::entities::spawn_config::{
    find_spawn_position, is_spawn_terrain, plan_config_spawns, sex_for_entity, spawn_position_from_offsets, SpawnArea,
    SpawnConfig, SpawnGroup, SpawnSex, TerrainMap,
};
use life_sim_core::geometry::IVec2;
use life_sim_core::pathfinding::grid::PathfindingGrid;

#[test]
fn explicit_coords_in_order() {
    assert_eq!(parse_chunk_coords("/api/chunks?coords=0,0&coords=1,0"), vec![(0, 0), (1, 0)]);
}

#[test]
fn center_and_radius_give_a_square_column_by_column() {
    assert_eq!(
        parse_chunk_coords("/api/chunks?center_x=0&center_y=0&radius=1"),
        vec![(-1, -1), (-1, 0), (-1, 1), (0, -1), (0, 0), (0, 1), (1, -1), (1, 0), (1, 1)]
    );
    assert_eq!(parse_chunk_coords("/x?center_x=5"), vec![(4, -1), (4, 0), (4, 1), (5, -1), (5, 0), (5, 1), (6, -1), (6, 0), (6, 1)]);
}

#[test]
fn no_query_or_nothing_usable_gives_origin() {
    assert_eq!(parse_chunk_coords("/api/chunks"), vec![(0, 0)]);
    assert_eq!(parse_chunk_coords("/api/chunks?foo=bar"), vec![(0, 0)]);
    assert_eq!(parse_chunk_coords("/api/chunks?center_x=abc"), vec![(0, 0)]);
    assert_eq!(parse_chunk_coords("/api/chunks?coords=1,x"), vec![(0, 0)]);
    assert_eq!(parse_chunk_coords("/api/chunks?coords=1,2,3"), vec![(0, 0)]);
    assert_eq!(parse_chunk_coords("/api/chunks?"), vec![(0, 0)]);
}

#[test]
fn explicit_coords_come_before_the_square() {
    assert_eq!(parse_chunk_coords("?radius=0&coords=5,5"), vec![(5, 5), (0, 0)]);
}

#[test]
fn negative_radius_gives_an_empty_square() {
    assert_eq!(parse_chunk_coords("?center_x=+3&radius=-1"), Vec::<(i32, i32)>::new());
}

#[test]
fn numbers_follow_i32_parsing() {
    assert_eq!(parse_chunk_coords("?coords=-2147483648,2147483647"), vec![(i32::MIN, i32::MAX)]);
    assert_eq!(parse_chunk_coords("?coords=2147483648,0"), vec![(0, 0)]);
    assert_eq!(parse_chunk_coords("?coords=007,-0"), vec![(7, 0)]);
    assert_eq!(parse_chunk_coords("?coords=+,1"), vec![(0, 0)]);
    assert_eq!(parse_chunk_coords("?coords= 1,2"), vec![(0, 0)]);
}

#[test]
fn only_the_first_query_part_counts() {
    assert_eq!(parse_chunk_coords("/a?coords=1,1?coords=2,2"), vec![(1, 1)]);
    assert_eq!(parse_chunk_coords("/a?x?coords=1,1"), vec![(0, 0)]);
}

#[test]
fn later_parameters_override_earlier_ones() {
    assert_eq!(parse_chunk_coords("?radius=3&radius=0&center_y=2"), vec![(0, 2)]);
}

#[test]
fn default_spawn_config() {
    let c = SpawnConfig::default();
    assert_eq!(c.spawn_groups.len(), 3);
    assert_eq!(c.spawn_groups[0].species, "Rabbit");
    assert_eq!(c.spawn_groups[0].count, 5);
    assert_eq!(c.spawn_groups[1].sex_sequence, Some(vec![SpawnSex::Male, SpawnSex::Female]));
    assert_eq!(c.spawn_groups[2].spawn_area.center, (-30, 10));
    assert_eq!(c.spawn_groups[2].spawn_area.max_attempts, 200);
    assert!(c.settings.verbose_logging && c.settings.enable_spawning);
    assert_eq!(c.settings.post_spawn_messages.len(), 3);
}

#[test]
fn names_cycle_or_are_numbered() {
    let mut c = SpawnConfig::default();
    assert_eq!(c.get_name_for_group(0, 0), "Bugs");
    assert_eq!(c.get_name_for_group(0, 6), "Roger");
    assert_eq!(c.get_name_for_group(1, 1), "Doe");
    assert_eq!(c.get_name_for_group(7, 0), "Entity_1");
    assert_eq!(c.get_name_for_group(99, 123), "Entity_124");
    c.spawn_groups[2].names.clear();
    assert_eq!(c.get_name_for_group(2, 9), "Raccoon_10");
    assert_eq!(c.get_name_for_group(2, 1999), "Raccoon_2000");
}

#[test]
fn sexes_cycle() {
    let c = SpawnConfig::default();
    assert_eq!(sex_for_entity(&c.spawn_groups[1], 0), Some(Sex::Male));
    assert_eq!(sex_for_entity(&c.spawn_groups[1], 3), Some(Sex::Female));
    assert_eq!(sex_for_entity(&c.spawn_groups[0], 3), None);
}

fn spawn_world() -> (PathfindingGrid, TerrainMap) {
    let mut grid = PathfindingGrid::new();
    let mut terrain = TerrainMap::new();
    for x in -3..=3 {
        for y in -3..=3 {
            grid.set_cost(IVec2::new(x, y), 1);
            terrain.set_terrain(IVec2::new(x, y), "Sand".to_string());
        }
    }
    terrain.set_terrain(IVec2::new(1, 1), "Grass".to_string());
    terrain.set_terrain(IVec2::new(2, 2), "Forest".to_string());
    terrain.set_terrain(IVec2::new(-1, -1), "Grass".to_string());
    grid.set_cost(IVec2::new(-1, -1), u32::MAX);
    (grid, terrain)
}

#[test]
fn spawn_terrain_is_grass_or_forest() {
    assert!(is_spawn_terrain(&"Grass".to_string()));
    assert!(is_spawn_terrain(&"Forest".to_string()));
    assert!(!is_spawn_terrain(&"Water".to_string()));
    assert!(!is_spawn_terrain(&"grass".to_string()));
    let (_, terrain) = spawn_world();
    assert_eq!(terrain.get_terrain_at(2, 2), Some("Forest".to_string()));
    assert_eq!(terrain.get_terrain_at(9, 9), None);
}

#[test]
fn first_fit_offset_wins_within_the_attempts() {
    let (grid, terrain) = spawn_world();
    let area = SpawnArea { center: (0, 0), search_radius: 3, max_attempts: 3 };
    let offsets = vec![(0, 0), (-1, -1), (2, 2), (1, 1)];
    assert_eq!(spawn_position_from_offsets(&area, &grid, &terrain, &offsets), Some(IVec2::new(2, 2)));
    let short = SpawnArea { max_attempts: 2, ..area };
    assert_eq!(spawn_position_from_offsets(&area, &grid, &terrain, &vec![(1, 1)]), Some(IVec2::new(1, 1)));
    assert_eq!(spawn_position_from_offsets(&short, &grid, &terrain, &offsets), None);
    let moved = SpawnArea { center: (1, 1), ..area };
    assert_eq!(spawn_position_from_offsets(&moved, &grid, &terrain, &vec![(1, 1)]), Some(IVec2::new(2, 2)));
}

#[test]
fn random_spawn_search_lands_on_fertile_walkable_tiles() {
    let (grid, terrain) = spawn_world();
    let mut rng = rand::thread_rng();
    let area = SpawnArea { center: (0, 0), search_radius: 3, max_attempts: 500 };
    for _ in 0..20 {
        let p = find_spawn_position(&area, &grid, &terrain, &mut rng).expect("a fertile tile is found");
        assert!(p == IVec2::new(1, 1) || p == IVec2::new(2, 2));
    }
    let none = SpawnArea { max_attempts: 0, ..area };
    assert_eq!(find_spawn_position(&none, &grid, &terrain, &mut rng), None);
    let barren = SpawnArea { center: (-2, -2), search_radius: 1, max_attempts: 50 };
    assert_eq!(find_spawn_position(&barren, &grid, &terrain, &mut rng), None);
}

fn rows(names: &[&[&str]]) -> Vec<Vec<String>> {
    names.iter().map(|r| r.iter().map(|t| t.to_string()).collect()).collect()
}

#[test]
fn cached_world_starts_empty_and_unloaded() {
    let w = CachedWorld::new("Test".to_string(), 42);
    assert_eq!(w.name, "Test");
    assert_eq!(w.seed, 42);
    assert!(!w.is_loaded);
    assert!(w.get_chunk(0, 0).is_none());
    assert!(w.get_chunk_layers(0, 0).is_none());
    let d = CachedWorld::default();
    assert_eq!(d.name, "Generated World");
    assert_eq!(d.seed, 12345);
    assert!(!d.is_loaded);
}

#[test]
fn a_layer_reads_back_what_was_set() {
    let mut w = CachedWorld::new("Test".to_string(), 1);
    w.set_chunk_layer(1, -2, "terrain".to_string(), rows(&[&["Grass", "Water"], &["Sand", "Grass"]]));
    w.set_chunk_layer(1, -2, "resources".to_string(), rows(&[&["", "Tree"]]));
    assert_eq!(w.get_chunk(1, -2), Some(rows(&[&["Grass", "Water"], &["Sand", "Grass"]])));
    assert_eq!(w.get_chunk_layer(1, -2, "resources"), Some(rows(&[&["", "Tree"]])));
    assert_eq!(w.get_chunk_layer(1, -2, "height"), None);
    assert_eq!(w.get_chunk(-2, 1), None);
    // Setting a layer again replaces it and keeps the other one.
    w.set_chunk_layer(1, -2, "terrain".to_string(), rows(&[&["Stone"]]));
    assert_eq!(w.get_chunk(1, -2), Some(rows(&[&["Stone"]])));
    assert_eq!(w.get_chunk_layer(1, -2, "resources"), Some(rows(&[&["", "Tree"]])));
    let layers = w.get_chunk_layers(1, -2).unwrap();
    let names: Vec<&str> = layers.iter().map(|l| l.name.as_str()).collect();
    assert_eq!(names, vec!["terrain", "resources"]);
}

#[test]
fn setting_all_layers_keeps_the_later_of_two_with_one_name() {
    let mut w = CachedWorld::new("Test".to_string(), 1);
    w.set_chunk_layer(0, 0, "old".to_string(), rows(&[&["X"]]));
    w.set_chunk_layers(
        0,
        0,
        vec![
            ChunkLayer { name: "terrain".to_string(), tiles: rows(&[&["Grass"]]) },
            ChunkLayer { name: "resources".to_string(), tiles: rows(&[&["Bush"]]) },
            ChunkLayer { name: "terrain".to_string(), tiles: rows(&[&["Dirt"]]) },
        ],
    );
    assert_eq!(w.get_chunk(0, 0), Some(rows(&[&["Dirt"]])));
    assert_eq!(w.get_chunk_layer(0, 0, "resources"), Some(rows(&[&["Bush"]])));
    assert_eq!(w.get_chunk_layer(0, 0, "old"), None);
    assert_eq!(w.get_chunk_layers(0, 0).unwrap().len(), 2);
}

#[test]
fn clearing_drops_all_chunks() {
    let mut w = CachedWorld::new("Test".to_string(), 1);
    w.set_chunk_layer(3, 3, "terrain".to_string(), rows(&[&["Grass"]]));
    w.is_loaded = true;
    w.clear();
    assert!(w.get_chunk(3, 3).is_none());
    assert!(!w.is_loaded);
    assert_eq!(w.name, "Test");
}

#[test]
fn world_info_json_text() {
    let mut w = CachedWorld::new("Island".to_string(), 987);
    assert_eq!(
        w.get_world_info_json(),
        "{\"center_chunk\": {\"x\": 0, \"y\": 0}, \"world_size\": {\"width\": 20, \"height\": 20}, \"seed\": 987, \"name\": \"Island\", \"is_loaded\": false}"
    );
    w.is_loaded = true;
    assert!(w.get_world_info_json().ends_with("\"is_loaded\": true}"));
}

#[test]
fn chunks_json_lists_held_terrain_once_per_chunk() {
    let mut w = CachedWorld::new("Test".to_string(), 1);
    w.set_chunk_layer(0, 0, "terrain".to_string(), rows(&[&["Grass", "Water"], &["Sand", "Grass"]]));
    w.set_chunk_layer(-1, 0, "terrain".to_string(), rows(&[&["Stone"]]));
    w.set_chunk_layer(5, 5, "resources".to_string(), rows(&[&["Tree"]]));
    assert_eq!(
        w.generate_chunks_json("/api/chunks?coords=0,0&coords=-1,0&coords=0,0&coords=7,7&coords=5,5"),
        "{\"chunk_data\": {\"0,0\": [[\"Grass\", \"Water\"], [\"Sand\", \"Grass\"]], \"-1,0\": [[\"Stone\"]]}}"
    );
    assert_eq!(w.generate_chunks_json("/api/chunks?coords=9,9"), "{\"chunk_data\": {}}");
}

#[test]
fn multi_layer_json_lists_every_layer_of_held_chunks() {
    let mut w = CachedWorld::new("Test".to_string(), 1);
    w.set_chunk_layer(0, 0, "terrain".to_string(), rows(&[&["Grass"]]));
    w.set_chunk_layer(0, 0, "resources".to_string(), rows(&[&["", "Tree"]]));
    assert_eq!(
        w.generate_multi_layer_chunks_json("/api/chunks?center_x=0&center_y=0&radius=0"),
        "{\"chunk_data\": {\"0,0\": {\"terrain\": [[\"Grass\"]], \"resources\": [[\"\", \"Tree\"]]}}}"
    );
}

#[test]
fn spawn_search_always_succeeds_when_the_whole_square_is_fertile() {
    let mut grid = PathfindingGrid::new();
    let mut terrain = TerrainMap::new();
    for x in 10..=12 {
        for y in 10..=12 {
            grid.set_cost(IVec2::new(x, y), 1);
            terrain.set_terrain(IVec2::new(x, y), "Forest".to_string());
        }
    }
    let area = SpawnArea { center: (11, 11), search_radius: 1, max_attempts: 1 };
    let mut rng = rand::thread_rng();
    for _ in 0..50 {
        let p = find_spawn_position(&area, &grid, &terrain, &mut rng).expect("one draw is enough");
        assert!((10..=12).contains(&p.x) && (10..=12).contains(&p.y));
    }
}

#[test]
fn chunk_request_fits_tells_which_squares_stay_in_range() {
    assert!(chunk_request_fits("/api/chunks?center_x=0&center_y=0&radius=1"));
    assert!(chunk_request_fits("/api/chunks?coords=0,0"));
    assert!(chunk_request_fits("/api/chunks"));
    assert!(!chunk_request_fits("/api/chunks?center_x=2147483647&radius=1"));
    assert!(!chunk_request_fits("/api/chunks?center_y=-2147483648"));
    assert!(chunk_request_fits("/api/chunks?center_x=2147483646&radius=1"));
}

fn fertile_block() -> (PathfindingGrid, TerrainMap) {
    let mut grid = PathfindingGrid::new();
    let mut terrain = TerrainMap::new();
    for x in 0..=4 {
        for y in 0..=4 {
            grid.set_cost(IVec2::new(x, y), 1);
            terrain.set_terrain(IVec2::new(x, y), "Grass".to_string());
        }
    }
    (grid, terrain)
}

#[test]
fn config_plan_places_every_creature_of_fit_groups_in_order() {
    let (grid, terrain) = fertile_block();
    let mut config = SpawnConfig::default();
    config.spawn_groups = vec![
        SpawnGroup {
            species: "Deer".to_string(),
            count: 3,
            names: vec!["Stag".to_string(), "Doe".to_string()],
            spawn_area: SpawnArea { center: (2, 2), search_radius: 2, max_attempts: 1 },
            sex_sequence: Some(vec![SpawnSex::Male, SpawnSex::Female]),
            messages: None,
        },
        SpawnGroup {
            species: "Rabbit".to_string(),
            count: 2,
            names: vec![],
            spawn_area: SpawnArea { center: (50, 50), search_radius: 1, max_attempts: 10 },
            sex_sequence: None,
            messages: None,
        },
        SpawnGroup {
            species: "Raccoon".to_string(),
            count: 2,
            names: vec![],
            spawn_area: SpawnArea { center: (1, 1), search_radius: 1, max_attempts: 5 },
            sex_sequence: None,
            messages: None,
        },
    ];
    let mut rng = rand::thread_rng();
    let plans = plan_config_spawns(&config, &grid, &terrain, &mut rng);
    let summary: Vec<(usize, usize, &str, &str, Option<Sex>)> = plans
        .iter()
        .map(|p| (p.group_index, p.entity_index, p.species.as_str(), p.name.as_str(), p.sex))
        .collect();
    assert_eq!(
        summary,
        vec![
            (0, 0, "Deer", "Stag", Some(Sex::Male)),
            (0, 1, "Deer", "Doe", Some(Sex::Female)),
            (0, 2, "Deer", "Stag", Some(Sex::Male)),
            (2, 0, "Raccoon", "Raccoon_1", None),
            (2, 1, "Raccoon", "Raccoon_2", None),
        ]
    );
    for p in &plans {
        assert!(grid.is_walkable(p.tile));
    }
    config.settings.enable_spawning = false;
    assert!(plan_config_spawns(&config, &grid, &terrain, &mut rng).is_empty());
}
