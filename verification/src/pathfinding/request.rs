use vstd::prelude::*;
use crate::geometry::{Entity, IVec2};

verus! {

/// Identifier handed out for one path request.
#[derive(Debug, Clone, Copy, PartialEq, Eq, Hash, Structural)]
pub struct PathRequestId(u64);

impl PathRequestId {
    /// The number the identifier carries.
    pub closed spec fn value(&self) -> u64 {
        self.0
    }

    pub fn new(id: u64) -> (r: PathRequestId)
        ensures
            r.value() == id,
    {
        PathRequestId(id)
    }

    pub fn as_u64(&self) -> (v: u64)
        ensures
            v == self.value(),
    {
        self.0
    }
}

/// How soon a path request is served.
#[derive(Debug, Clone, Copy, PartialEq, Eq, Structural)]
pub enum PathPriority {
    /// Life-threatening: fleeing from a predator.
    Urgent,
    /// Needs-driven: food, water, a mate, prey.
    Normal,
    /// Idle wandering.
    Lazy,
}

/// Why a path is wanted.
#[derive(Debug, Clone, Copy, PartialEq, Eq, Structural)]
pub enum PathReason {
    FleeingPredator,
    MovingToFood,
    MovingToWater,
    MovingToMate,
    Hunting,
    Wandering,
}

/// The priority a request for `reason` gets by default.
pub open spec fn reason_priority(reason: PathReason) -> PathPriority {
    match reason {
        PathReason::FleeingPredator => PathPriority::Urgent,
        PathReason::Wandering => PathPriority::Lazy,
        _ => PathPriority::Normal,
    }
}

/// Only a creature fleeing a predator asks urgently, only a wandering one
/// lazily; going for food, water or a mate, and hunting, are normal.
pub proof fn law_reason_priorities()
    ensures
        reason_priority(PathReason::FleeingPredator) == PathPriority::Urgent,
        reason_priority(PathReason::MovingToFood) == PathPriority::Normal,
        reason_priority(PathReason::MovingToWater) == PathPriority::Normal,
        reason_priority(PathReason::MovingToMate) == PathPriority::Normal,
        reason_priority(PathReason::Hunting) == PathPriority::Normal,
        reason_priority(PathReason::Wandering) == PathPriority::Lazy,
        forall|r: PathReason| #[trigger] reason_priority(r) == PathPriority::Urgent <==> r == PathReason::FleeingPredator,
        forall|r: PathReason| #[trigger] reason_priority(r) == PathPriority::Lazy <==> r == PathReason::Wandering,
{
}

/// The name under which a reason is shown.
pub open spec fn reason_name(reason: PathReason) -> Seq<char> {
    match reason {
        PathReason::FleeingPredator => "FleeingPredator"@,
        PathReason::MovingToFood => "MovingToFood"@,
        PathReason::MovingToWater => "MovingToWater"@,
        PathReason::MovingToMate => "MovingToMate"@,
        PathReason::Hunting => "Hunting"@,
        PathReason::Wandering => "Wandering"@,
    }
}

impl PathReason {
    pub fn default_priority(&self) -> (p: PathPriority)
        ensures
            p == reason_priority(*self),
            *self == PathReason::FleeingPredator ==> p == PathPriority::Urgent,
            *self == PathReason::MovingToFood ==> p == PathPriority::Normal,
            *self == PathReason::MovingToWater ==> p == PathPriority::Normal,
            *self == PathReason::MovingToMate ==> p == PathPriority::Normal,
            *self == PathReason::Hunting ==> p == PathPriority::Normal,
            *self == PathReason::Wandering ==> p == PathPriority::Lazy,
    {
        match self {
            PathReason::FleeingPredator => PathPriority::Urgent,
            PathReason::MovingToFood | PathReason::MovingToWater | PathReason::MovingToMate
            | PathReason::Hunting => PathPriority::Normal,
            PathReason::Wandering => PathPriority::Lazy,
        }
    }

    /// The reason's name, as shown in logs.
    pub fn to_string(&self) -> (s: String)
        ensures
            s@ == reason_name(*self),
    {
        match self {
            PathReason::FleeingPredator => "FleeingPredator".to_string(),
            PathReason::MovingToFood => "MovingToFood".to_string(),
            PathReason::MovingToWater => "MovingToWater".to_string(),
            PathReason::MovingToMate => "MovingToMate".to_string(),
            PathReason::Hunting => "Hunting".to_string(),
            PathReason::Wandering => "Wandering".to_string(),
        }
    }
}

/// A queued request for a path from `from` to `to` on behalf of `entity`.
#[derive(Debug, Clone, Copy)]
pub struct PathRequest {
    pub id: PathRequestId,
    pub entity: Entity,
    pub from: IVec2,
    pub to: IVec2,
    pub priority: PathPriority,
    pub reason: PathReason,
    pub requested_tick: u64,
}

impl PathRequest {
    pub fn new(
        id: PathRequestId,
        entity: Entity,
        from: IVec2,
        to: IVec2,
        priority: PathPriority,
        reason: PathReason,
        requested_tick: u64,
    ) -> (r: PathRequest)
        ensures
            r == (PathRequest { id, entity, from, to, priority, reason, requested_tick }),
    {
        PathRequest { id, entity, from, to, priority, reason, requested_tick }
    }
}

/// Why a path could not be produced.
#[derive(Debug, Clone, Copy, PartialEq, Eq, Structural)]
pub enum PathFailureReason {
    Unreachable,
    Timeout,
    InvalidStart,
    InvalidGoal,
}

/// The name under which a failure is shown.
pub open spec fn failure_name(reason: PathFailureReason) -> Seq<char> {
    match reason {
        PathFailureReason::Unreachable => "Unreachable"@,
        PathFailureReason::Timeout => "Timeout"@,
        PathFailureReason::InvalidStart => "InvalidStart"@,
        PathFailureReason::InvalidGoal => "InvalidGoal"@,
    }
}

impl PathFailureReason {
    /// The failure's name, as shown in logs.
    pub fn to_string(&self) -> (s: String)
        ensures
            s@ == failure_name(*self),
    {
        match self {
            PathFailureReason::Unreachable => "Unreachable".to_string(),
            PathFailureReason::Timeout => "Timeout".to_string(),
            PathFailureReason::InvalidStart => "InvalidStart".to_string(),
            PathFailureReason::InvalidGoal => "InvalidGoal".to_string(),
        }
    }
}

/// Outcome of a path computation.
#[derive(Debug, Clone)]
pub enum PathResult {
    Success { path: Vec<IVec2>, computed_tick: u64 },
    Failed { reason: PathFailureReason, retry_count: u32 },
}

} // verus!
