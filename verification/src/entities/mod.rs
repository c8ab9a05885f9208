pub mod reproduction;
pub mod spatial;
pub mod relationships;
pub mod movement;
pub mod wandering;
pub mod systems_registry;
pub mod spawn_config;
pub mod current_action;
pub mod registry;
