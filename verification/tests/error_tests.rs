use life_sim_core::errors::LifeSimulatorError;

#[test]
fn errors_show_their_kind_and_message() {
    assert_eq!(LifeSimulatorError::resource_grid("no cell").to_string(), "Resource Grid Error: no cell");
    assert_eq!(LifeSimulatorError::pathfinding("blocked").to_string(), "Pathfinding Error: blocked");
    assert_eq!(LifeSimulatorError::entity("gone").to_string(), "Entity Error: gone");
    assert_eq!(LifeSimulatorError::world_loading("bad file").to_string(), "World Loading Error: bad file");
    assert_eq!(LifeSimulatorError::ai("stuck").to_string(), "AI Error: stuck");
    assert_eq!(LifeSimulatorError::vegetation("dry").to_string(), "Vegetation Error: dry");
    assert_eq!(LifeSimulatorError::terrain("flat").to_string(), "Terrain Error: flat");
    assert_eq!(LifeSimulatorError::network("down").to_string(), "Network Error: down");
    assert_eq!(LifeSimulatorError::config("missing").to_string(), "Configuration Error: missing");
    assert_eq!(LifeSimulatorError::generic("").to_string(), "Error: ");
}

#[test]
fn constructors_pick_the_variant() {
    assert!(matches!(LifeSimulatorError::pathfinding("x"), LifeSimulatorError::Pathfinding(m) if m == "x"));
    assert!(matches!(LifeSimulatorError::config("y"), LifeSimulatorError::Config(m) if m == "y"));
}
