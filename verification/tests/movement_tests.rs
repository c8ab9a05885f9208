use life_sim_core::events::{
    death_event, detect_path_completion, EntityDied, PathCompletedEvent, PathJustCompleted,
};
use life_sim_core::entities::current_action::CurrentAction;
use life_sim_core::entities::movement::{
    movement_component_step, tick_movement_step, MoveOrder, MoveStep, MovementComponent, MovementSpeed,
    MovementState, MovementTick, TilePosition,
};
use life_sim_core::geometry::{Entity, IVec2};
use life_sim_core::pathfinding::cache::PathCache;
use life_sim_core::pathfinding::grid::PathfindingGrid;
use life_sim_core::pathfinding::path::Path;
use life_sim_core::pathfinding::request::PathRequestId;
use life_sim_core::pathfinding::service::{
    bridge_path_ready_to_movement, build_pathfinding_grid_from_chunks, cache_cleanup_due,
    issue_move_order, process_path_request, PathRequest, PathfindingFailed,
};

#[test]
fn speeds() {
    assert_eq!(MovementSpeed::fast().ticks_per_move, 1);
    assert_eq!(MovementSpeed::normal().ticks_per_move, 2);
    assert_eq!(MovementSpeed::slow().ticks_per_move, 4);
    assert_eq!(MovementSpeed::custom(15).ticks_per_move, 15);
    assert_eq!(TilePosition::new(3, 4).tile, IVec2::new(3, 4));
    assert_eq!(TilePosition::from_tile(IVec2::new(-1, 2)).tile, IVec2::new(-1, 2));
    assert_eq!(TilePosition::default().tile, IVec2::new(0, 0));
}

#[test]
fn path_following_waits_for_speed() {
    let mut pos = TilePosition::new(0, 0);
    let speed = MovementSpeed::normal();
    let mut state = MovementState::default();
    let mut path = Path::new(vec![IVec2::new(1, 0), IVec2::new(2, 0)]);
    assert_eq!(tick_movement_step(&mut pos, &speed, &mut state, &mut path), MoveStep::Waiting);
    assert_eq!(pos.tile, IVec2::new(0, 0));
    assert_eq!(tick_movement_step(&mut pos, &speed, &mut state, &mut path), MoveStep::Stepped);
    assert_eq!(pos.tile, IVec2::new(1, 0));
    assert_eq!(tick_movement_step(&mut pos, &speed, &mut state, &mut path), MoveStep::Waiting);
    assert_eq!(tick_movement_step(&mut pos, &speed, &mut state, &mut path), MoveStep::Arrived);
    assert_eq!(pos.tile, IVec2::new(2, 0));
    let mut empty = Path::new(vec![]);
    let fast = MovementSpeed::fast();
    assert_eq!(tick_movement_step(&mut pos, &fast, &mut state, &mut empty), MoveStep::EmptyPath);
}

#[test]
fn movement_component_walks_its_path() {
    let mut pos = TilePosition::new(0, 0);
    let speed = MovementSpeed::normal();
    let mut movement = MovementComponent::following_path(vec![IVec2::new(0, 1), IVec2::new(0, 2)]);
    let mut tick: Option<MovementTick> = None;
    // Without a counter the first step happens at once.
    movement_component_step(&mut pos, &mut movement, &speed, &mut tick);
    assert_eq!(pos.tile, IVec2::new(0, 1));
    assert_eq!(movement.get_path_index(), Some(1));
    assert_eq!(tick, Some(MovementTick { ticks_since_move: 0 }));
    movement_component_step(&mut pos, &mut movement, &speed, &mut tick);
    assert_eq!(pos.tile, IVec2::new(0, 1));
    assert_eq!(tick, Some(MovementTick { ticks_since_move: 1 }));
    movement_component_step(&mut pos, &mut movement, &speed, &mut tick);
    assert_eq!(pos.tile, IVec2::new(0, 2));
    assert!(movement.is_idle());
    assert_eq!(tick, None);
    // An idle creature stays put.
    movement_component_step(&mut pos, &mut movement, &speed, &mut tick);
    assert_eq!(pos.tile, IVec2::new(0, 2));
}

#[test]
fn movement_component_accessors() {
    let id = PathRequestId::new(3);
    let requested = MovementComponent::path_requested(id);
    assert!(requested.is_path_requested());
    assert_eq!(requested.get_request_id(), Some(id));
    assert_eq!(requested.get_path_index(), None);
    let stuck = MovementComponent::stuck(4);
    assert!(stuck.is_stuck());
    assert_eq!(stuck.get_stuck_attempts(), Some(4));
    let following = MovementComponent::following_path(vec![IVec2::new(1, 1)]);
    assert!(following.is_following_path());
    assert_eq!(following.get_path().map(|p| p.len()), Some(1));
    assert!(MovementComponent::idle().is_idle());
    assert!(MovementComponent::default().is_idle());
}

#[test]
fn orders_and_requests() {
    let order = issue_move_order(IVec2::new(4, 4));
    assert_eq!(order, MoveOrder { destination: IVec2::new(4, 4), allow_diagonal: false });
    let request = order.to_path_request(IVec2::new(0, 0));
    assert_eq!(request.max_steps, Some(5000));
    assert_eq!(request.origin, IVec2::new(0, 0));
    assert!(cache_cleanup_due(200));
    assert!(!cache_cleanup_due(250));
}

#[test]
fn requests_are_served_or_fail() {
    let grid = build_pathfinding_grid_from_chunks(&vec![(0, 0)]);
    assert_eq!(grid.get_cost(IVec2::new(15, 15)), 1);
    assert!(!grid.is_walkable(IVec2::new(16, 0)));
    let mut cache = PathCache::default();
    let ok = PathRequest { origin: IVec2::new(0, 0), destination: IVec2::new(3, 0), allow_diagonal: false, max_steps: None };
    let path = process_path_request(&ok, &grid, &mut cache, 0).unwrap();
    assert_eq!(path.all_waypoints().len(), 3);
    let bad = PathRequest { origin: IVec2::new(0, 0), destination: IVec2::new(30, 0), allow_diagonal: false, max_steps: None };
    assert_eq!(
        process_path_request(&bad, &grid, &mut cache, 0).err(),
        Some(PathfindingFailed { attempted_destination: IVec2::new(30, 0) })
    );
    let movement = bridge_path_ready_to_movement(vec![IVec2::new(1, 0)]);
    assert_eq!(movement.get_path_index(), Some(0));
}

#[test]
fn grid_from_several_chunks() {
    let grid = build_pathfinding_grid_from_chunks(&vec![(-1, 0), (2, 3)]);
    assert!(grid.is_walkable(IVec2::new(-16, 0)));
    assert!(grid.is_walkable(IVec2::new(-1, 15)));
    assert!(!grid.is_walkable(IVec2::new(0, 0)));
    assert!(grid.is_walkable(IVec2::new(32, 48)));
    assert!(grid.is_walkable(IVec2::new(47, 63)));
}

#[test]
fn current_action_defaults_to_idle() {
    assert_eq!(CurrentAction::default().action_name, "Idle");
    assert_eq!(CurrentAction::none().action_name, "Idle");
    assert_eq!(CurrentAction::new("Graze").action_name, "Graze");
}

#[test]
fn death_cause_follows_the_critical_needs() {
    let e = Entity::from_raw(4);
    assert_eq!(death_event(e, Some(true), Some(true)).cause, EntityDied::Starvation);
    assert_eq!(death_event(e, Some(false), Some(true)).cause, EntityDied::Dehydration);
    assert_eq!(death_event(e, Some(false), Some(false)).cause, EntityDied::Unknown);
    assert_eq!(death_event(e, Some(false), None).cause, EntityDied::Unknown);
    assert_eq!(death_event(e, None, Some(true)).cause, EntityDied::Unknown);
    assert_eq!(death_event(e, None, None).entity, e);
}

#[test]
fn path_completion_markers_become_events() {
    let marked = vec![
        (Entity::from_raw(1), PathJustCompleted { destination: IVec2::new(3, 4), success: true }),
        (Entity::from_raw(2), PathJustCompleted { destination: IVec2::new(-1, 0), success: false }),
    ];
    let events = detect_path_completion(&marked);
    assert_eq!(
        events,
        vec![
            PathCompletedEvent { entity: Entity::from_raw(1), destination: IVec2::new(3, 4), success: true },
            PathCompletedEvent { entity: Entity::from_raw(2), destination: IVec2::new(-1, 0), success: false },
        ]
    );
}
