pub mod astar;
pub mod cache;
pub mod grid;
pub mod path;
pub mod queue;
pub mod region_map;
pub mod request;
pub mod service;
