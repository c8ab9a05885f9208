use life_sim_core::entities::reproduction::{
    is_eligible, plan_births, select_mating_pairs, BirthCandidate, Mother, select_mating_pairs_via_children, tick_reproduction_timers, Age, MateCandidate, MatingPair,
    Pregnancy, ReproductionCooldown, Sex, WellFedStreak,
};
use life_sim_core::entities::wandering::{
    pick_random_walkable_tile, random_walkable_near, walkable_from_draws, walkable_from_offsets, wanderer_step, wandering_spawn_tiles,
    Wanderer,
};
use life_sim_core::entities::spatial::{entities_in_radius_via_children, SpatialCellGrid};
use life_sim_core::geometry::{Entity, IVec2};
use std::collections::HashMap;
use life_sim_core::pathfinding::grid::PathfindingGrid;

#[test]
fn test_well_fed_streak_percentage_decay() {
        let mut streak = WellFedStreak { ticks: 200 };

        // Simulate 10 ticks not fed with 90% retention per tick
        for _ in 0..10 {
            streak.ticks = (streak.ticks as f32 * 0.90) as u32;
        }

        // Should retain ~35% of the starting value (0.9^10 ≈ 0.35)
        // 200 * 0.35 ≈ 70 ticks
        assert!(streak.ticks >= 65 && streak.ticks <= 75,
                "Expected ~70 ticks, got {}", streak.ticks);
    }

#[test]
fn test_well_fed_streak_brief_interruption() {
        let mut streak = WellFedStreak { ticks: 300 };

        // Simulate 5 ticks not fed (brief drink)
        for _ in 0..5 {
            streak.ticks = (streak.ticks as f32 * 0.90) as u32;
        }

        // Should retain ~60% (0.9^5 ≈ 0.59)
        // 300 * 0.59 ≈ 177 ticks
        assert!(streak.ticks >= 170,
                "Expected >=170 ticks after brief interruption, got {}", streak.ticks);
    }

#[test]
fn test_well_fed_streak_complete_decay() {
        let mut streak = WellFedStreak { ticks: 100 };

        // Simulate 50 ticks not fed
        for _ in 0..50 {
            streak.ticks = (streak.ticks as f32 * 0.90) as u32;
        }

        // Should decay significantly but not to zero (0.9^50 ≈ 0.005)
        // 100 * 0.005 ≈ 0-1 ticks
        assert!(streak.ticks <= 5,
                "Expected near-zero ticks after long decay, got {}", streak.ticks);
    }

#[test]
fn test_well_fed_streak_growth_still_works() {
        let mut streak = WellFedStreak { ticks: 100 };

        // Simulate growth (this tests that our change doesn't break increment logic)
        streak.ticks = streak.ticks.saturating_add(1);
        assert_eq!(streak.ticks, 101, "Growth should still work");

        streak.ticks = streak.ticks.saturating_add(10);
        assert_eq!(streak.ticks, 111, "Multi-tick growth should work");
    }

#[test]
fn test_wanderer_creation() {
        let wanderer = Wanderer::new(IVec2::new(5, 5), 10);
        assert_eq!(wanderer.home_position, IVec2::new(5, 5));
        assert_eq!(wanderer.wander_radius, 10);
        assert_eq!(wanderer.ticks_idle, 0);
    }

#[test]
fn test_wanderer_with_idle_time() {
        let wanderer = Wanderer::new(IVec2::new(0, 0), 5)
            .with_idle_time(20);
        assert_eq!(wanderer.idle_ticks, 20);
    }


// ---------------------------------------------------------------------------
// Further cases of the library's own.
// ---------------------------------------------------------------------------

fn candidate(index: u32, x: i32, y: i32, sex: Sex) -> MateCandidate {
    MateCandidate {
        entity: Entity::from_raw(index),
        tile: IVec2::new(x, y),
        sex: Some(sex),
        busy: false,
        eligible: true,
        mating_search_radius: 10,
        matching_interval_ticks: 5,
        mating_duration_ticks: 10 + index,
    }
}

#[test]
fn nearest_free_male_is_paired() {
    let animals = vec![
        candidate(1, 0, 0, Sex::Female),
        candidate(2, 5, 0, Sex::Male),
        candidate(3, 2, 0, Sex::Male),
        candidate(4, 3, 0, Sex::Female),
    ];
    let pairs = select_mating_pairs(&animals, 10);
    assert_eq!(
        pairs,
        vec![
            MatingPair { female: Entity::from_raw(1), male: Entity::from_raw(3), meeting_tile: IVec2::new(0, 0), female_duration_ticks: 11, male_duration_ticks: 13 },
            MatingPair { female: Entity::from_raw(4), male: Entity::from_raw(2), meeting_tile: IVec2::new(3, 0), female_duration_ticks: 14, male_duration_ticks: 12 },
        ]
    );
}

#[test]
fn matching_waits_for_interval() {
    let animals = vec![candidate(1, 0, 0, Sex::Female), candidate(2, 1, 0, Sex::Male)];
    assert!(select_mating_pairs(&animals, 7).is_empty());
    assert_eq!(select_mating_pairs(&animals, 15).len(), 1);
}

#[test]
fn ties_go_to_the_first_male_and_radius_is_inclusive() {
    let mut far = candidate(1, 0, 0, Sex::Female);
    far.mating_search_radius = 3;
    let animals = vec![far, candidate(2, 0, 3, Sex::Male), candidate(3, 3, 0, Sex::Male), candidate(4, 0, 4, Sex::Male)];
    let pairs = select_mating_pairs(&animals, 0);
    assert_eq!(pairs.len(), 1);
    assert_eq!(pairs[0].male, Entity::from_raw(2));
}

#[test]
fn busy_ineligible_and_sexless_creatures_are_skipped() {
    let mut busy = candidate(2, 1, 0, Sex::Male);
    busy.busy = true;
    let mut tired = candidate(3, 1, 0, Sex::Male);
    tired.eligible = false;
    let mut unknown = candidate(4, 1, 0, Sex::Male);
    unknown.sex = None;
    let animals = vec![candidate(1, 0, 0, Sex::Female), busy, tired, unknown];
    assert!(select_mating_pairs(&animals, 0).is_empty());
}

#[test]
fn eligibility_rules() {
    let adult = Age { ticks_alive: 100, mature_at_ticks: 100 };
    let young = Age { ticks_alive: 99, mature_at_ticks: 100 };
    let ready = ReproductionCooldown { remaining_ticks: 0 };
    let waiting = ReproductionCooldown { remaining_ticks: 3 };
    let fed = WellFedStreak { ticks: 50 };
    assert!(adult.is_adult());
    assert!(!young.is_adult());
    assert!(is_eligible(&adult, &ready, &fed, 50, true));
    assert!(!is_eligible(&young, &ready, &fed, 50, true));
    assert!(!is_eligible(&adult, &waiting, &fed, 50, true));
    assert!(!is_eligible(&adult, &ready, &fed, 51, true));
    assert!(!is_eligible(&adult, &ready, &fed, 50, false));
}

#[test]
fn timers_count_down_to_zero() {
    let mut cooldowns = vec![ReproductionCooldown { remaining_ticks: 2 }, ReproductionCooldown { remaining_ticks: 0 }];
    let mut pregnancies = vec![Pregnancy { remaining_ticks: 1, litter_size: 3, father: Some(Entity::from_raw(8)) }];
    tick_reproduction_timers(&mut cooldowns, &mut pregnancies);
    assert_eq!(cooldowns[0].remaining_ticks, 1);
    assert_eq!(cooldowns[1].remaining_ticks, 0);
    assert_eq!(pregnancies[0].remaining_ticks, 0);
    assert!(pregnancies[0].is_due());
    assert_eq!(pregnancies[0].litter_size, 3);
    tick_reproduction_timers(&mut cooldowns, &mut pregnancies);
    assert_eq!(cooldowns[0].remaining_ticks, 0);
    assert_eq!(pregnancies[0].remaining_ticks, 0);
}

#[test]
fn random_tile_is_walkable_and_near() {
    let mut grid = PathfindingGrid::new();
    grid.set_cost(IVec2::new(7, -2), 1);
    let mut rng = rand::thread_rng();
    for _ in 0..10 {
        let p = pick_random_walkable_tile(IVec2::new(5, 0), 3, &grid, &mut rng).unwrap();
        assert_eq!(p, IVec2::new(7, -2));
    }
    assert_eq!(pick_random_walkable_tile(IVec2::new(50, 50), 3, &grid, &mut rng), None);
}

#[test]
fn wanderer_rests_then_walks() {
    let mut grid = PathfindingGrid::new();
    for x in 0..3 {
        for y in 0..3 {
            grid.set_cost(IVec2::new(x, y), 1);
        }
    }
    let mut rng = rand::thread_rng();
    let mut w = Wanderer::new(IVec2::new(1, 1), 1);
    // Far from every walkable tile, so any order leads somewhere else.
    let at = IVec2::new(30, 30);
    assert!(wanderer_step(&mut w, at, &grid, &mut rng).is_none());
    assert_eq!(w.ticks_idle, 5);
    let order = wanderer_step(&mut w, at, &grid, &mut rng).unwrap();
    assert_eq!(w.ticks_idle, 0);
    assert!(!order.allow_diagonal);
    assert!((order.destination.x - 1).abs() <= 1 && (order.destination.y - 1).abs() <= 1);
}

#[test]
fn spawn_tiles_found_or_none() {
    let mut grid = PathfindingGrid::new();
    grid.set_cost(IVec2::new(0, 0), 1);
    assert_eq!(wandering_spawn_tiles(3, IVec2::new(0, 0), 2, &grid), vec![IVec2::new(0, 0); 3]);
    assert!(wandering_spawn_tiles(3, IVec2::new(40, 40), 2, &grid).is_empty());
}

fn cell_setup() -> (SpatialCellGrid, HashMap<u32, Vec<Entity>>) {
    let mut grid = SpatialCellGrid::new(16);
    grid.insert_cell(IVec2::new(0, 0), Entity::from_raw(100));
    grid.insert_cell(IVec2::new(1, 0), Entity::from_raw(101));
    grid.insert_cell(IVec2::new(5, 5), Entity::from_raw(105));
    let mut children: HashMap<u32, Vec<Entity>> = HashMap::new();
    children.insert(100, vec![Entity::from_raw(1), Entity::from_raw(2)]);
    children.insert(101, vec![Entity::from_raw(3)]);
    children.insert(105, vec![Entity::from_raw(4)]);
    (grid, children)
}

#[test]
fn children_query_walks_the_square_of_cells() {
    let (grid, children) = cell_setup();
    let near = entities_in_radius_via_children(&grid, &children, IVec2::new(0, 0), 16);
    assert_eq!(near, vec![Entity::from_raw(1), Entity::from_raw(2), Entity::from_raw(3)]);
    let own = entities_in_radius_via_children(&grid, &children, IVec2::new(3, 3), 0);
    assert_eq!(own, vec![Entity::from_raw(1), Entity::from_raw(2)]);
    assert!(entities_in_radius_via_children(&grid, &children, IVec2::new(0, 0), -20).is_empty());
    let far = entities_in_radius_via_children(&grid, &children, IVec2::new(85, 85), 1);
    assert_eq!(far, vec![Entity::from_raw(4)]);
}

#[test]
fn matching_via_children_only_sees_males_under_nearby_cells() {
    let (grid, children) = cell_setup();
    let animals = vec![
        candidate(1, 0, 0, Sex::Female),
        candidate(5, 3, 0, Sex::Male),
        candidate(2, 5, 0, Sex::Male),
        candidate(3, 17, 0, Sex::Male),
    ];
    let pairs = select_mating_pairs_via_children(&animals, &grid, &children, 10);
    assert_eq!(
        pairs,
        vec![MatingPair { female: Entity::from_raw(1), male: Entity::from_raw(2), meeting_tile: IVec2::new(0, 0), female_duration_ticks: 11, male_duration_ticks: 12 }]
    );
    let everyone = select_mating_pairs(&animals, 10);
    assert_eq!(everyone[0].male, Entity::from_raw(5));
    assert!(select_mating_pairs_via_children(&animals, &grid, &children, 11).is_empty());
}

#[test]
fn first_walkable_offset_is_taken() {
    let mut grid = PathfindingGrid::new();
    grid.set_cost(IVec2::new(6, 4), 1);
    grid.set_cost(IVec2::new(4, 4), 1);
    let center = IVec2::new(5, 5);
    assert_eq!(walkable_from_offsets(center, &grid, &vec![(0, 0), (1, -1), (-1, -1)]), Some(IVec2::new(6, 4)));
    assert_eq!(walkable_from_offsets(center, &grid, &vec![(0, 0), (3, 3)]), None);
    assert_eq!(walkable_from_offsets(center, &grid, &vec![]), None);
}

#[test]
fn random_walkable_tile_stays_in_the_square() {
    let mut grid = PathfindingGrid::new();
    grid.set_cost(IVec2::new(-2, 3), 1);
    grid.set_cost(IVec2::new(40, 40), 1);
    let mut rng = rand::thread_rng();
    for _ in 0..10 {
        let p = random_walkable_near(IVec2::new(0, 0), 5, 2000, &grid, &mut rng);
        assert_eq!(p, Some(IVec2::new(-2, 3)));
    }
    assert_eq!(random_walkable_near(IVec2::new(0, 0), 5, 0, &grid, &mut rng), None);
    assert_eq!(random_walkable_near(IVec2::new(20, 20), 3, 50, &grid, &mut rng), None);
}

#[test]
fn due_litters_are_born_and_end_the_pregnancy() {
    let due = BirthCandidate {
        mother: Entity::from_raw(7),
        tile: IVec2::new(3, -2),
        pregnancy: Pregnancy { remaining_ticks: 0, litter_size: 2, father: None },
        maturity_ticks: 500,
    };
    let waiting = BirthCandidate {
        mother: Entity::from_raw(8),
        tile: IVec2::new(0, 0),
        pregnancy: Pregnancy { remaining_ticks: 4, litter_size: 3, father: None },
        maturity_ticks: 500,
    };
    let empty = BirthCandidate {
        mother: Entity::from_raw(9),
        tile: IVec2::new(1, 1),
        pregnancy: Pregnancy { remaining_ticks: 0, litter_size: 0, father: Some(Entity::from_raw(2)) },
        maturity_ticks: 10,
    };
    let (newborns, mothers) = plan_births(&vec![due, waiting, empty], "Kit");
    assert_eq!(mothers, vec![Entity::from_raw(7), Entity::from_raw(9)]);
    assert_eq!(newborns.len(), 2);
    assert_eq!(newborns[0].name, "Kit_0");
    assert_eq!(newborns[1].name, "Kit_1");
    for n in &newborns {
        assert_eq!(n.tile, IVec2::new(3, -2));
        assert_eq!(n.mother, Mother(Entity::from_raw(7)));
        assert_eq!(n.age, Age { ticks_alive: 0, mature_at_ticks: 500 });
    }
}

#[test]
fn random_walkable_near_always_finds_a_tile_when_the_whole_square_is_open() {
    let mut grid = PathfindingGrid::new();
    for x in -2..=2 {
        for y in -2..=2 {
            grid.set_cost(IVec2::new(x, y), 1);
        }
    }
    let mut rng = rand::thread_rng();
    for _ in 0..50 {
        let p = random_walkable_near(IVec2::new(0, 0), 2, 1, &grid, &mut rng).expect("one draw is enough");
        assert!(p.x.abs() <= 2 && p.y.abs() <= 2);
    }
}

#[test]
fn each_partner_gets_its_own_mating_duration() {
    let animals = vec![candidate(1, 0, 0, Sex::Female), candidate(2, 1, 0, Sex::Male)];
    let pairs = select_mating_pairs(&animals, 10);
    assert_eq!(pairs.len(), 1);
    let (f, m) = pairs[0].intents();
    assert_eq!(f.partner, Entity::from_raw(2));
    assert_eq!(m.partner, Entity::from_raw(1));
    assert_eq!(f.meeting_tile, IVec2::new(0, 0));
    assert_eq!(m.meeting_tile, IVec2::new(0, 0));
    assert_eq!(f.duration_ticks, 11);
    assert_eq!(m.duration_ticks, 12);
}

#[test]
fn draws_first_then_a_column_by_column_scan() {
    let mut grid = PathfindingGrid::new();
    grid.set_cost(IVec2::new(11, 9), 1);
    grid.set_cost(IVec2::new(9, 11), 1);
    grid.set_cost(IVec2::new(10, 8), 1);
    let c = IVec2::new(10, 10);
    // A drawn walkable tile wins.
    assert_eq!(walkable_from_draws(c, 2, &grid, &vec![(0, 0), (1, -1)]), Some(IVec2::new(11, 9)));
    // No drawn tile can be entered: the scan takes the lowest x, then the lowest y.
    assert_eq!(walkable_from_draws(c, 2, &grid, &vec![(0, 0), (2, 2)]), Some(IVec2::new(9, 11)));
    assert_eq!(walkable_from_draws(c, 2, &grid, &vec![]), Some(IVec2::new(9, 11)));
    assert_eq!(walkable_from_draws(c, 0, &grid, &vec![(0, 0)]), None);
}
