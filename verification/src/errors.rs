use vstd::prelude::*;
use vstd::string::StringExecFns;

verus! {

/// The simulator's error, by the part of the system that raised it, with
/// its message.
#[derive(Debug, Clone)]
pub enum LifeSimulatorError {
    ResourceGrid(String),
    Pathfinding(String),
    Entity(String),
    WorldLoading(String),
    AI(String),
    Vegetation(String),
    Terrain(String),
    Network(String),
    Config(String),
    Generic(String),
}

/// The text an error is shown as: a label of its kind, `": "` and its message.
pub open spec fn error_text(e: LifeSimulatorError) -> Seq<char> {
    match e {
        LifeSimulatorError::ResourceGrid(m) => "Resource Grid Error: "@ + m@,
        LifeSimulatorError::Pathfinding(m) => "Pathfinding Error: "@ + m@,
        LifeSimulatorError::Entity(m) => "Entity Error: "@ + m@,
        LifeSimulatorError::WorldLoading(m) => "World Loading Error: "@ + m@,
        LifeSimulatorError::AI(m) => "AI Error: "@ + m@,
        LifeSimulatorError::Vegetation(m) => "Vegetation Error: "@ + m@,
        LifeSimulatorError::Terrain(m) => "Terrain Error: "@ + m@,
        LifeSimulatorError::Network(m) => "Network Error: "@ + m@,
        LifeSimulatorError::Config(m) => "Configuration Error: "@ + m@,
        LifeSimulatorError::Generic(m) => "Error: "@ + m@,
    }
}

impl LifeSimulatorError {
    pub fn resource_grid(msg: &str) -> (e: LifeSimulatorError)
        ensures
            e matches LifeSimulatorError::ResourceGrid(m) && m@ == msg@,
    {
        LifeSimulatorError::ResourceGrid(String::from_str(msg))
    }

    pub fn pathfinding(msg: &str) -> (e: LifeSimulatorError)
        ensures
            e matches LifeSimulatorError::Pathfinding(m) && m@ == msg@,
    {
        LifeSimulatorError::Pathfinding(String::from_str(msg))
    }

    pub fn entity(msg: &str) -> (e: LifeSimulatorError)
        ensures
            e matches LifeSimulatorError::Entity(m) && m@ == msg@,
    {
        LifeSimulatorError::Entity(String::from_str(msg))
    }

    pub fn world_loading(msg: &str) -> (e: LifeSimulatorError)
        ensures
            e matches LifeSimulatorError::WorldLoading(m) && m@ == msg@,
    {
        LifeSimulatorError::WorldLoading(String::from_str(msg))
    }

    pub fn ai(msg: &str) -> (e: LifeSimulatorError)
        ensures
            e matches LifeSimulatorError::AI(m) && m@ == msg@,
    {
        LifeSimulatorError::AI(String::from_str(msg))
    }

    pub fn vegetation(msg: &str) -> (e: LifeSimulatorError)
        ensures
            e matches LifeSimulatorError::Vegetation(m) && m@ == msg@,
    {
        LifeSimulatorError::Vegetation(String::from_str(msg))
    }

    pub fn terrain(msg: &str) -> (e: LifeSimulatorError)
        ensures
            e matches LifeSimulatorError::Terrain(m) && m@ == msg@,
    {
        LifeSimulatorError::Terrain(String::from_str(msg))
    }

    pub fn network(msg: &str) -> (e: LifeSimulatorError)
        ensures
            e matches LifeSimulatorError::Network(m) && m@ == msg@,
    {
        LifeSimulatorError::Network(String::from_str(msg))
    }

    pub fn config(msg: &str) -> (e: LifeSimulatorError)
        ensures
            e matches LifeSimulatorError::Config(m) && m@ == msg@,
    {
        LifeSimulatorError::Config(String::from_str(msg))
    }

    pub fn generic(msg: &str) -> (e: LifeSimulatorError)
        ensures
            e matches LifeSimulatorError::Generic(m) && m@ == msg@,
    {
        LifeSimulatorError::Generic(String::from_str(msg))
    }

    /// The text the error is shown as (see `error_text`).
    pub fn to_string(&self) -> (s: String)
        ensures
            s@ == error_text(*self),
    {
        let (label, msg) = match self {
            LifeSimulatorError::ResourceGrid(m) => ("Resource Grid Error: ", m),
            LifeSimulatorError::Pathfinding(m) => ("Pathfinding Error: ", m),
            LifeSimulatorError::Entity(m) => ("Entity Error: ", m),
            LifeSimulatorError::WorldLoading(m) => ("World Loading Error: ", m),
            LifeSimulatorError::AI(m) => ("AI Error: ", m),
            LifeSimulatorError::Vegetation(m) => ("Vegetation Error: ", m),
            LifeSimulatorError::Terrain(m) => ("Terrain Error: ", m),
            LifeSimulatorError::Network(m) => ("Network Error: ", m),
            LifeSimulatorError::Config(m) => ("Configuration Error: ", m),
            LifeSimulatorError::Generic(m) => ("Error: ", m),
        };
        let mut s = String::from_str(label);
        s.append(msg.as_str());
        s
    }
}

} // verus!
