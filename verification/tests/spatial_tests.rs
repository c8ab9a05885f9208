use life_sim_core::entities::spatial::{
    classify_entity_type, plan_parent_updates, plan_reparenting, track_despawn, track_move,
    track_spawn, EntityPositionCache, EntityType, SpatialCellGrid, SpatialEntityIndex, CHUNK_SIZE,
};
use life_sim_core::geometry::{Entity, IVec2};

#[test]
fn test_world_to_chunk_conversion() {
        // Origin
        assert_eq!(
            SpatialEntityIndex::world_to_chunk(IVec2::new(0, 0)),
            IVec2::new(0, 0)
        );

        // Within chunk 0,0
        assert_eq!(
            SpatialEntityIndex::world_to_chunk(IVec2::new(15, 15)),
            IVec2::new(0, 0)
        );

        // Boundary - next chunk
        assert_eq!(
            SpatialEntityIndex::world_to_chunk(IVec2::new(16, 16)),
            IVec2::new(1, 1)
        );

        // Negative coordinates
        assert_eq!(
            SpatialEntityIndex::world_to_chunk(IVec2::new(-1, -1)),
            IVec2::new(-1, -1)
        );

        // Large coordinates
        assert_eq!(
            SpatialEntityIndex::world_to_chunk(IVec2::new(100, 100)),
            IVec2::new(6, 6)
        );
    }

#[test]
fn test_insert_and_query() {
        let mut index = SpatialEntityIndex::new();
        let entity1 = Entity::from_raw(1);
        let entity2 = Entity::from_raw(2);

        // Insert entities in same chunk
        index.insert(entity1, IVec2::new(5, 5), EntityType::Herbivore);
        index.insert(entity2, IVec2::new(10, 10), EntityType::Predator);

        assert_eq!(index.total_entities(), 2);
        assert_eq!(index.chunk_count(), 1);

        // Query radius should find both
        let nearby = index.entities_in_radius(IVec2::new(5, 5), 20, None);
        assert!(nearby.contains(&entity1));
        assert!(nearby.contains(&entity2));
    }

#[test]
fn test_filter_by_entity_type() {
        let mut index = SpatialEntityIndex::new();
        let herbivore = Entity::from_raw(1);
        let predator = Entity::from_raw(2);
        let omnivore = Entity::from_raw(3);

        // Insert mixed entity types
        index.insert(herbivore, IVec2::new(5, 5), EntityType::Herbivore);
        index.insert(predator, IVec2::new(6, 6), EntityType::Predator);
        index.insert(omnivore, IVec2::new(7, 7), EntityType::Omnivore);

        // Query only predators
        let only_predators =
            index.entities_in_radius(IVec2::new(5, 5), 10, Some(EntityType::Predator));
        assert_eq!(only_predators.len(), 1);
        assert_eq!(only_predators[0], predator);

        // Query only herbivores
        let only_herbivores =
            index.entities_in_radius(IVec2::new(5, 5), 10, Some(EntityType::Herbivore));
        assert_eq!(only_herbivores.len(), 1);
        assert_eq!(only_herbivores[0], herbivore);

        // Query all
        let all = index.entities_in_radius(IVec2::new(5, 5), 10, None);
        assert_eq!(all.len(), 3);
    }

#[test]
fn test_update_across_chunks() {
        let mut index = SpatialEntityIndex::new();
        let entity = Entity::from_raw(1);

        // Insert in chunk (0, 0)
        index.insert(entity, IVec2::new(0, 0), EntityType::Herbivore);
        assert_eq!(index.total_entities(), 1);
        assert_eq!(index.chunk_count(), 1);

        // Move to chunk (3, 3)
        index.update(
            entity,
            IVec2::new(0, 0),
            IVec2::new(50, 50),
            EntityType::Herbivore,
        );

        // Entity should not be found near origin
        let near_origin = index.entities_in_radius(IVec2::new(0, 0), 10, None);
        assert!(!near_origin.contains(&entity));

        // Entity should be found near new position
        let near_new_pos = index.entities_in_radius(IVec2::new(50, 50), 10, None);
        assert!(near_new_pos.contains(&entity));

        // Total count should still be 1
        assert_eq!(index.total_entities(), 1);
    }

#[test]
fn test_remove_entity() {
        let mut index = SpatialEntityIndex::new();
        let entity1 = Entity::from_raw(1);
        let entity2 = Entity::from_raw(2);

        // Insert two entities in same chunk
        index.insert(entity1, IVec2::new(5, 5), EntityType::Herbivore);
        index.insert(entity2, IVec2::new(6, 6), EntityType::Herbivore);
        assert_eq!(index.total_entities(), 2);

        // Remove first entity
        index.remove(entity1, IVec2::new(5, 5));
        assert_eq!(index.total_entities(), 1);

        // Check entity1 is gone
        let nearby = index.entities_in_radius(IVec2::new(5, 5), 10, None);
        assert!(!nearby.contains(&entity1));
        assert!(nearby.contains(&entity2));

        // Remove second entity
        index.remove(entity2, IVec2::new(6, 6));
        assert_eq!(index.total_entities(), 0);

        // Empty chunk should be removed
        assert_eq!(index.chunk_count(), 0);
    }

#[test]
fn test_multi_chunk_query() {
        let mut index = SpatialEntityIndex::new();

        // Create entities in different chunks
        let entity_chunk_0 = Entity::from_raw(1);
        let entity_chunk_1 = Entity::from_raw(2);
        let entity_chunk_2 = Entity::from_raw(3);

        // Chunk (0, 0)
        index.insert(entity_chunk_0, IVec2::new(5, 5), EntityType::Herbivore);

        // Chunk (1, 0)
        index.insert(entity_chunk_1, IVec2::new(20, 5), EntityType::Herbivore);

        // Chunk (5, 5)
        index.insert(entity_chunk_2, IVec2::new(100, 100), EntityType::Herbivore);

        assert_eq!(index.chunk_count(), 3);

        // Query with large radius should find nearby chunks
        let nearby = index.entities_in_radius(IVec2::new(10, 10), 50, None);
        assert!(nearby.contains(&entity_chunk_0), "Should find entity in chunk 0");
        assert!(
            nearby.contains(&entity_chunk_1),
            "Should find entity in chunk 1"
        );
        assert!(!nearby.contains(&entity_chunk_2), "Should NOT find distant entity");

        // Query with very large radius should find all
        let all = index.entities_in_radius(IVec2::new(10, 10), 150, None);
        assert_eq!(all.len(), 3);
    }

#[test]
fn test_performance_characteristics() {
        let mut index = SpatialEntityIndex::new();

        // Insert 1000 entities spread across a large area
        for i in 0..1000 {
            let x = (i % 50) * 2;
            let y = (i / 50) * 2;
            index.insert(
                Entity::from_raw((i + 1) as u32),
                IVec2::new(x, y),
                if i % 3 == 0 {
                    EntityType::Predator
                } else {
                    EntityType::Herbivore
                },
            );
        }

        // Query should be fast and accurate
        let nearby = index.entities_in_radius(IVec2::new(25, 25), 30, None);
        assert!(!nearby.is_empty(), "Should find some entities");

        // Filter query
        let predators = index.entities_in_radius(IVec2::new(25, 25), 30, Some(EntityType::Predator));
        assert!(!predators.is_empty(), "Should find some predators");
    }

#[test]
fn test_chunk_coord_for_position_examples() {
        let grid = SpatialCellGrid::new(CHUNK_SIZE);

        // Origin
        assert_eq!(
            grid.chunk_coord_for_position(IVec2::new(0, 0)),
            IVec2::new(0, 0)
        );

        // Within first chunk
        assert_eq!(
            grid.chunk_coord_for_position(IVec2::new(15, 15)),
            IVec2::new(0, 0)
        );

        // Boundary
        assert_eq!(
            grid.chunk_coord_for_position(IVec2::new(16, 16)),
            IVec2::new(1, 1)
        );

        // Negative coordinates
        assert_eq!(
            grid.chunk_coord_for_position(IVec2::new(-1, -1)),
            IVec2::new(-1, -1)
        );
    }

#[test]
fn test_is_in_bounds() {
        let grid = SpatialCellGrid::new(CHUNK_SIZE);

        // In bounds
        assert!(grid.is_in_bounds(IVec2::new(0, 0)));
        assert!(grid.is_in_bounds(IVec2::new(-32, -32)));
        assert!(grid.is_in_bounds(IVec2::new(31, 31)));

        // Out of bounds
        assert!(!grid.is_in_bounds(IVec2::new(-33, 0)));
        assert!(!grid.is_in_bounds(IVec2::new(32, 0)));
        assert!(!grid.is_in_bounds(IVec2::new(0, 32)));
    }

#[test]
fn test_entity_position_cache_creation() {
        let cache = EntityPositionCache::new();
        assert_eq!(cache.all_entities().len(), 0);
    }

#[test]
fn test_entity_position_cache_update_and_get() {
        let mut cache = EntityPositionCache::new();
        let entity = Entity::from_raw(1);
        let pos = IVec2::new(5, 10);
        let etype = EntityType::Herbivore;

        cache.update_position(entity, pos, etype);

        let retrieved = cache.get_position(entity);
        assert_eq!(retrieved, Some((pos, etype)));
    }

#[test]
fn test_entity_position_cache_remove() {
        let mut cache = EntityPositionCache::new();
        let entity = Entity::from_raw(1);
        let pos = IVec2::new(5, 10);

        cache.update_position(entity, pos, EntityType::Herbivore);
        assert_eq!(cache.all_entities().len(), 1);

        cache.remove_entity(entity);
        assert_eq!(cache.all_entities().len(), 0);
        assert_eq!(cache.get_position(entity), None);
    }

#[test]
fn test_entity_position_cache_multiple_entities() {
        let mut cache = EntityPositionCache::new();

        for i in 0..10 {
            let entity = Entity::from_raw(i + 1);
            let pos = IVec2::new(i as i32, i as i32 * 2);
            cache.update_position(entity, pos, EntityType::Herbivore);
        }

        assert_eq!(cache.all_entities().len(), 10);
    }

#[test]
fn test_entity_position_cache_update_overwrites() {
        let mut cache = EntityPositionCache::new();
        let entity = Entity::from_raw(1);

        cache.update_position(entity, IVec2::new(5, 5), EntityType::Herbivore);
        cache.update_position(entity, IVec2::new(10, 10), EntityType::Predator);

        let retrieved = cache.get_position(entity);
        assert_eq!(retrieved, Some((IVec2::new(10, 10), EntityType::Predator)));
    }


// ---------------------------------------------------------------------------
// Further cases of the library's own.
// ---------------------------------------------------------------------------

#[test]
fn query_order_is_column_then_row_then_insertion() {
    let mut index = SpatialEntityIndex::new();
    index.insert(Entity::from_raw(1), IVec2::new(20, 0), EntityType::Herbivore);
    index.insert(Entity::from_raw(2), IVec2::new(0, 20), EntityType::Herbivore);
    index.insert(Entity::from_raw(3), IVec2::new(0, 0), EntityType::Herbivore);
    index.insert(Entity::from_raw(4), IVec2::new(1, 1), EntityType::Herbivore);
    let found = index.entities_in_radius(IVec2::new(0, 0), 16, None);
    assert_eq!(
        found,
        vec![Entity::from_raw(3), Entity::from_raw(4), Entity::from_raw(2), Entity::from_raw(1)]
    );
}

#[test]
fn negative_radius_queries() {
    let mut index = SpatialEntityIndex::new();
    index.insert(Entity::from_raw(1), IVec2::new(3, 3), EntityType::Predator);
    // (-5 + 15) / 16 == 0: only the center chunk.
    assert_eq!(index.entities_in_radius(IVec2::new(3, 3), -5, None), vec![Entity::from_raw(1)]);
    // (-40 + 15) / 16 == -1: no chunk at all.
    assert!(index.entities_in_radius(IVec2::new(3, 3), -40, None).is_empty());
}

#[test]
fn update_within_chunk_changes_nothing() {
    let mut index = SpatialEntityIndex::new();
    index.insert(Entity::from_raw(1), IVec2::new(1, 1), EntityType::Omnivore);
    index.update(Entity::from_raw(1), IVec2::new(1, 1), IVec2::new(15, 15), EntityType::Omnivore);
    assert_eq!(index.entities_in_chunk(IVec2::new(0, 0)), 1);
    assert_eq!(index.chunk_count(), 1);
    index.clear();
    assert_eq!(index.total_entities(), 0);
    assert_eq!(index.entities_in_chunk(IVec2::new(0, 0)), 0);
}

#[test]
fn chunk_of_negative_tiles() {
    assert_eq!(SpatialEntityIndex::world_to_chunk(IVec2::new(-16, -17)), IVec2::new(-1, -2));
    assert_eq!(SpatialEntityIndex::world_to_chunk(IVec2::new(i32::MIN, i32::MAX)), IVec2::new(-134217728, 134217727));
    assert_eq!(CHUNK_SIZE, 16);
}

#[test]
fn diet_classes() {
    assert_eq!(classify_entity_type(true, false), EntityType::Predator);
    assert_eq!(classify_entity_type(true, true), EntityType::Predator);
    assert_eq!(classify_entity_type(false, true), EntityType::Omnivore);
    assert_eq!(classify_entity_type(false, false), EntityType::Herbivore);
}

#[test]
fn tracking_keeps_index_and_cache_in_step() {
    let mut index = SpatialEntityIndex::new();
    let mut cache = EntityPositionCache::new();
    let e = Entity::from_raw(5);
    track_spawn(&mut index, &mut cache, e, IVec2::new(1, 1), EntityType::Herbivore);
    assert_eq!(index.entities_in_chunk(IVec2::new(0, 0)), 1);
    track_move(&mut index, &mut cache, e, IVec2::new(40, 1), EntityType::Herbivore);
    assert_eq!(index.entities_in_chunk(IVec2::new(0, 0)), 0);
    assert_eq!(index.entities_in_chunk(IVec2::new(2, 0)), 1);
    assert_eq!(cache.get_position(e), Some((IVec2::new(40, 1), EntityType::Herbivore)));
    // A creature the cache does not know is indexed afresh.
    let f = Entity::from_raw(6);
    track_move(&mut index, &mut cache, f, IVec2::new(2, 2), EntityType::Predator);
    assert_eq!(index.total_entities(), 2);
    track_despawn(&mut index, &mut cache, e);
    assert_eq!(index.total_entities(), 1);
    assert_eq!(cache.get_position(e), None);
    assert_eq!(index.chunk_count(), 1);
}

#[test]
fn cell_grid_lookup_and_plans() {
    let mut grid = SpatialCellGrid::new(CHUNK_SIZE);
    grid.insert_cell(IVec2::new(0, 0), Entity::from_raw(100));
    grid.insert_cell(IVec2::new(1, 0), Entity::from_raw(101));
    assert_eq!(grid.cell_count(), 2);
    assert_eq!(grid.chunk_size(), 16);
    assert_eq!(grid.get_cell(IVec2::new(1, 0)), Some(Entity::from_raw(101)));
    assert_eq!(grid.get_cell(IVec2::new(5, 5)), None);
    let pending = vec![
        (Entity::from_raw(1), IVec2::new(3, 3)),
        (Entity::from_raw(2), IVec2::new(99, 99)),
        (Entity::from_raw(3), IVec2::new(17, 2)),
    ];
    assert_eq!(
        plan_reparenting(&grid, &pending),
        vec![(Entity::from_raw(100), Entity::from_raw(1)), (Entity::from_raw(101), Entity::from_raw(3))]
    );
    let moved = vec![
        (Entity::from_raw(1), IVec2::new(20, 0), Some(IVec2::new(0, 0))),
        (Entity::from_raw(3), IVec2::new(20, 0), Some(IVec2::new(1, 0))),
        (Entity::from_raw(4), IVec2::new(2, 0), None),
    ];
    assert_eq!(
        plan_parent_updates(&grid, &moved),
        vec![(Entity::from_raw(101), Entity::from_raw(1)), (Entity::from_raw(100), Entity::from_raw(4))]
    );
}

#[test]
fn reparenting_budget_is_fifty() {
    let mut grid = SpatialCellGrid::new(CHUNK_SIZE);
    grid.insert_cell(IVec2::new(0, 0), Entity::from_raw(100));
    let pending: Vec<(Entity, IVec2)> = (0..80).map(|i| (Entity::from_raw(i), IVec2::new(1, 1))).collect();
    assert_eq!(plan_reparenting(&grid, &pending).len(), 50);
}
