use life_sim_core::entities::registry::SpeciesRegistry;
use life_sim_core::geometry::IVec2;
use life_sim_core::pathfinding::grid::PathfindingGrid;

#[test]
fn registry_lists_the_seven_species_in_order() {
    let r = SpeciesRegistry::new();
    let names: Vec<&str> = r.get_descriptors().iter().map(|d| d.species).collect();
    assert_eq!(names, vec!["Human", "Rabbit", "Deer", "Raccoon", "Bear", "Fox", "Wolf"]);
}

#[test]
fn registry_descriptors_carry_speeds_and_radii() {
    let r = SpeciesRegistry::new();
    let rabbit = r.rabbit();
    assert_eq!(rabbit.species, "Rabbit");
    assert_eq!(rabbit.movement_speed, 20);
    assert_eq!(rabbit.wander_radius, 15);
    assert_eq!(rabbit.juvenile_name_prefix, Some("Bunny"));
    assert_eq!(r.deer().movement_speed, 10);
    assert_eq!(r.deer().wander_radius, 40);
    assert_eq!(r.raccoon().juvenile_name_prefix, Some("Kit"));
    assert_eq!(r.human().name_prefix, "Person");
    assert_eq!(r.human().juvenile_name_prefix, None);
    assert_eq!(r.human().viewer_scale_percent, 120);
    assert_eq!(r.wolf().wander_radius, 200);
    assert_eq!(r.wolf().viewer_color, "#666666");
}

#[test]
fn registry_finds_by_species_name() {
    let r = SpeciesRegistry::new();
    assert_eq!(r.find_by_species("Fox").map(|d| d.movement_speed), Some(16));
    assert_eq!(r.find_by_species("Bear").map(|d| d.juvenile_name_prefix), Some(Some("Cub")));
    assert!(r.find_by_species("Dragon").is_none());
    assert!(r.find_by_species("rabbit").is_none());
}

#[test]
fn species_batch_names_creatures_by_prefix_and_number() {
    let r = SpeciesRegistry::new();
    let mut grid = PathfindingGrid::new();
    for x in -3..=3 {
        for y in -3..=3 {
            grid.set_cost(IVec2::new(x, y), 1);
        }
    }
    let mut rng = rand::thread_rng();
    let batch = r.plan_species_batch("Deer", 3, IVec2::new(0, 0), 3, &grid, &mut rng);
    let names: Vec<&str> = batch.iter().map(|(n, _)| n.as_str()).collect();
    assert_eq!(names, vec!["Deer_0", "Deer_1", "Deer_2"]);
    for (_, p) in &batch {
        assert!(p.x.abs() <= 3 && p.y.abs() <= 3);
        assert!(grid.is_walkable(*p));
    }
}

#[test]
fn species_batch_is_empty_without_a_walkable_tile() {
    let r = SpeciesRegistry::new();
    let grid = PathfindingGrid::new();
    let mut rng = rand::thread_rng();
    assert!(r.plan_species_batch("Wolf", 4, IVec2::new(10, 10), 2, &grid, &mut rng).is_empty());
}

#[test]
fn every_species_is_found_under_its_own_name_only() {
    let r = SpeciesRegistry::new();
    let all = r.get_descriptors();
    for (i, d) in all.iter().enumerate() {
        let found = r.find_by_species(d.species).unwrap();
        assert_eq!(found.species, d.species);
        assert_eq!(found.movement_speed, d.movement_speed);
        for e in &all[i + 1..] {
            assert_ne!(e.species, d.species);
        }
    }
}
