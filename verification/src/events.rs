use vstd::prelude::*;
use crate::geometry::{Entity, IVec2};

verus! {

/// Why a creature died.
#[derive(Debug, Clone, Copy, PartialEq, Eq, Structural)]
pub enum EntityDied {
    Starvation,
    Dehydration,
    PredatorAttack,
    Environmental,
    Unknown,
}

/// A creature died.
#[derive(Debug, Clone, Copy, PartialEq, Eq, Structural)]
pub struct EntityDiedEvent {
    pub entity: Entity,
    pub cause: EntityDied,
}

/// A creature finished (or gave up) walking a path.
#[derive(Debug, Clone, Copy, PartialEq, Eq, Structural)]
pub struct PathCompletedEvent {
    pub entity: Entity,
    pub destination: IVec2,
    pub success: bool,
}

/// A need that reached its critical level.
#[derive(Debug, Clone, Copy, PartialEq, Eq, Structural)]
pub enum StatCritical {
    Hunger,
    Thirst,
    Health,
    Energy,
}

/// Marks a creature whose path just ended, until the event is sent.
#[derive(Debug, Clone, Copy, PartialEq, Eq, Structural)]
pub struct PathJustCompleted {
    pub destination: IVec2,
    pub success: bool,
}

/// The cause of a death from the creature's needs: `hunger_critical` and
/// `thirst_critical` tell, for each need the creature has, whether it
/// stood at its critical level (`None` when it lacks the need).
pub open spec fn cause_of_death(hunger_critical: Option<bool>, thirst_critical: Option<bool>) -> EntityDied {
    match hunger_critical {
        Some(true) => EntityDied::Starvation,
        Some(false) => match thirst_critical {
            Some(true) => EntityDied::Dehydration,
            _ => EntityDied::Unknown,
        },
        None => EntityDied::Unknown,
    }
}

/// The death event of a creature (see `cause_of_death`): starvation when
/// hunger was critical, else dehydration when thirst was, else unknown; a
/// creature without hunger dies of an unknown cause.
pub fn death_event(entity: Entity, hunger_critical: Option<bool>, thirst_critical: Option<bool>) -> (ev: EntityDiedEvent)
    ensures
        ev == (EntityDiedEvent { entity, cause: cause_of_death(hunger_critical, thirst_critical) }),
{
    let cause = match hunger_critical {
        Some(true) => EntityDied::Starvation,
        Some(false) => match thirst_critical {
            Some(true) => EntityDied::Dehydration,
            _ => EntityDied::Unknown,
        },
        None => EntityDied::Unknown,
    };
    EntityDiedEvent { entity, cause }
}

/// The event sent for a creature marked as having finished its path.
pub open spec fn path_event(marked: (Entity, PathJustCompleted)) -> PathCompletedEvent {
    PathCompletedEvent { entity: marked.0, destination: marked.1.destination, success: marked.1.success }
}

/// The path-completion events of the marked creatures, one each, in order
/// (the markers are then cleared by the caller).
pub fn detect_path_completion(marked: &Vec<(Entity, PathJustCompleted)>) -> (r: Vec<PathCompletedEvent>)
    ensures
        r.len() == marked.len(),
        forall|i: int| 0 <= i < r.len() ==> #[trigger] r@[i] == path_event(marked@[i]),
{
    let mut out: Vec<PathCompletedEvent> = Vec::new();
    let mut i: usize = 0;
    while i < marked.len()
        invariant
            0 <= i <= marked.len(),
            out.len() == i,
            forall|j: int| 0 <= j < i ==> #[trigger] out@[j] == path_event(marked@[j]),
        decreases marked.len() - i,
    {
        let (entity, done) = marked[i];
        out.push(PathCompletedEvent { entity, destination: done.destination, success: done.success });
        i = i + 1;
    }
    out
}

} // verus!
