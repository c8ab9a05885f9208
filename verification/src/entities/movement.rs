use vstd::prelude::*;
use std::sync::Arc;
use crate::geometry::IVec2;
use crate::pathfinding::path::Path;
use crate::pathfinding::request::PathRequestId;

verus! {

/// The tile a creature stands on.
#[derive(Debug, Clone, Copy, PartialEq, Eq, Structural)]
pub struct TilePosition {
    pub tile: IVec2,
}

impl TilePosition {
    pub fn new(x: i32, y: i32) -> (p: TilePosition)
        ensures
            p.tile == (IVec2 { x, y }),
    {
        TilePosition { tile: IVec2 { x, y } }
    }

    pub fn from_tile(tile: IVec2) -> (p: TilePosition)
        ensures
            p.tile == tile,
    {
        TilePosition { tile }
    }
}

impl Default for TilePosition {
    fn default() -> (p: TilePosition)
        ensures
            p.tile == (IVec2 { x: 0, y: 0 }),
    {
        TilePosition { tile: IVec2 { x: 0, y: 0 } }
    }
}

/// An order to walk to a destination.
#[derive(Debug, Clone, Copy, PartialEq, Eq, Structural)]
pub struct MoveOrder {
    pub destination: IVec2,
    pub allow_diagonal: bool,
}

/// How many ticks a creature waits between two steps.
#[derive(Debug, Clone, Copy, PartialEq, Eq, Structural)]
pub struct MovementSpeed {
    pub ticks_per_move: u32,
}

impl MovementSpeed {
    /// A step every tick.
    pub fn fast() -> (s: MovementSpeed)
        ensures
            s.ticks_per_move == 1,
    {
        MovementSpeed { ticks_per_move: 1 }
    }

    /// A step every second tick.
    pub fn normal() -> (s: MovementSpeed)
        ensures
            s.ticks_per_move == 2,
    {
        MovementSpeed { ticks_per_move: 2 }
    }

    /// A step every fourth tick.
    pub fn slow() -> (s: MovementSpeed)
        ensures
            s.ticks_per_move == 4,
    {
        MovementSpeed { ticks_per_move: 4 }
    }

    pub fn custom(ticks_per_move: u32) -> (s: MovementSpeed)
        ensures
            s.ticks_per_move == ticks_per_move,
    {
        MovementSpeed { ticks_per_move }
    }
}

/// Ticks since a creature following a `Path` last stepped.
#[derive(Debug, Clone, Copy, PartialEq, Eq, Structural)]
pub struct MovementState {
    ticks_since_move: u32,
}

impl MovementState {
    pub closed spec fn ticks_view(&self) -> u32 {
        self.ticks_since_move
    }
}

impl Default for MovementState {
    fn default() -> (s: MovementState)
        ensures
            s.ticks_view() == 0,
    {
        MovementState { ticks_since_move: 0 }
    }
}

/// Ticks since a creature following a `MovementComponent` path last stepped.
#[derive(Debug, Clone, Copy, PartialEq, Eq, Structural)]
pub struct MovementTick {
    pub ticks_since_move: u32,
}

impl Default for MovementTick {
    fn default() -> (t: MovementTick)
        ensures
            t.ticks_since_move == 0,
    {
        MovementTick { ticks_since_move: 0 }
    }
}

/// What a creature's movement is doing.
#[derive(Debug, Clone)]
pub enum MovementComponent {
    Idle,
    PathRequested { request_id: PathRequestId },
    FollowingPath { path: Arc<Vec<IVec2>>, index: usize },
    Stuck { attempts: u32 },
}

impl Default for MovementComponent {
    fn default() -> (m: MovementComponent)
        ensures
            m is Idle,
    {
        MovementComponent::Idle
    }
}

impl MovementComponent {
    pub fn idle() -> (m: MovementComponent)
        ensures
            m is Idle,
    {
        MovementComponent::Idle
    }

    pub fn path_requested(request_id: PathRequestId) -> (m: MovementComponent)
        ensures
            m == (MovementComponent::PathRequested { request_id }),
    {
        MovementComponent::PathRequested { request_id }
    }

    /// Starts following `path` from its first tile.
    pub fn following_path(path: Vec<IVec2>) -> (m: MovementComponent)
        ensures
            m matches MovementComponent::FollowingPath { path: p, index } && index == 0 && p@ == path@,
    {
        MovementComponent::FollowingPath { path: Arc::new(path), index: 0 }
    }

    pub fn stuck(attempts: u32) -> (m: MovementComponent)
        ensures
            m == (MovementComponent::Stuck { attempts }),
    {
        MovementComponent::Stuck { attempts }
    }

    pub fn is_idle(&self) -> (b: bool)
        ensures
            b == (*self is Idle),
    {
        match self {
            MovementComponent::Idle => true,
            _ => false,
        }
    }

    pub fn is_path_requested(&self) -> (b: bool)
        ensures
            b == (*self is PathRequested),
    {
        match self {
            MovementComponent::PathRequested { .. } => true,
            _ => false,
        }
    }

    pub fn is_following_path(&self) -> (b: bool)
        ensures
            b == (*self is FollowingPath),
    {
        match self {
            MovementComponent::FollowingPath { .. } => true,
            _ => false,
        }
    }

    pub fn is_stuck(&self) -> (b: bool)
        ensures
            b == (*self is Stuck),
    {
        match self {
            MovementComponent::Stuck { .. } => true,
            _ => false,
        }
    }

    pub fn get_path(&self) -> (r: Option<&Arc<Vec<IVec2>>>)
        ensures
            match *self {
                MovementComponent::FollowingPath { path, .. } => r == Some(&path),
                _ => r is None,
            },
    {
        match self {
            MovementComponent::FollowingPath { path, .. } => Some(path),
            _ => None,
        }
    }

    pub fn get_path_index(&self) -> (r: Option<usize>)
        ensures
            match *self {
                MovementComponent::FollowingPath { index, .. } => r == Some(index),
                _ => r is None,
            },
    {
        match self {
            MovementComponent::FollowingPath { index, .. } => Some(*index),
            _ => None,
        }
    }

    pub fn get_request_id(&self) -> (r: Option<PathRequestId>)
        ensures
            match *self {
                MovementComponent::PathRequested { request_id } => r == Some(request_id),
                _ => r is None,
            },
    {
        match self {
            MovementComponent::PathRequested { request_id } => Some(*request_id),
            _ => None,
        }
    }

    pub fn get_stuck_attempts(&self) -> (r: Option<u32>)
        ensures
            match *self {
                MovementComponent::Stuck { attempts } => r == Some(attempts),
                _ => r is None,
            },
    {
        match self {
            MovementComponent::Stuck { attempts } => Some(*attempts),
            _ => None,
        }
    }
}

/// What a tick of path following did.
#[derive(Debug, Clone, Copy, PartialEq, Eq, Structural)]
pub enum MoveStep {
    /// Not time to step yet.
    Waiting,
    /// Stepped onto the next waypoint; more remain.
    Stepped,
    /// Stepped onto the last waypoint: the path and movement state are done.
    Arrived,
    /// No waypoint left: the path and movement state are dropped.
    EmptyPath,
}

/// One tick of following a `Path`: the counter goes up, and once it
/// reaches the speed's ticks per move it restarts at zero and the creature
/// steps onto the path's current target.
pub fn tick_movement_step(
    position: &mut TilePosition,
    speed: &MovementSpeed,
    state: &mut MovementState,
    path: &mut Path,
) -> (r: MoveStep)
    requires
        old(state).ticks_view() < u32::MAX,
    ensures
        final(path).waypoints_view() == old(path).waypoints_view(),
        old(state).ticks_view() + 1 < speed.ticks_per_move ==> {
            &&& r == MoveStep::Waiting
            &&& final(state).ticks_view() == old(state).ticks_view() + 1
            &&& *final(position) == *old(position)
            &&& final(path).index_view() == old(path).index_view()
        },
        old(state).ticks_view() + 1 >= speed.ticks_per_move ==> {
            &&& final(state).ticks_view() == 0
            &&& if old(path).index_view() < old(path).waypoints_view().len() {
                &&& final(position).tile == old(path).waypoints_view()[old(path).index_view() as int]
                &&& final(path).index_view() == old(path).index_view() + 1
                &&& r == if old(path).index_view() + 1 >= old(path).waypoints_view().len() {
                    MoveStep::Arrived
                } else {
                    MoveStep::Stepped
                }
            } else {
                &&& r == MoveStep::EmptyPath
                &&& *final(position) == *old(position)
                &&& final(path).index_view() == old(path).index_view()
            }
        },
{
    state.ticks_since_move = state.ticks_since_move + 1;
    if state.ticks_since_move < speed.ticks_per_move {
        return MoveStep::Waiting;
    }
    state.ticks_since_move = 0;
    match path.current_target() {
        Some(target) => {
            position.tile = target;
            path.advance();
            if path.is_complete() {
                MoveStep::Arrived
            } else {
                MoveStep::Stepped
            }
        },
        None => MoveStep::EmptyPath,
    }
}

/// One tick of following a `MovementComponent` path. A creature that is
/// not following a path is left alone. A creature without a tick counter
/// moves at once; one with a counter counts one tick more and moves once
/// the count reaches the speed's ticks per move. A move steps onto the
/// path's tile at the current index and restarts the counter at zero.
/// After the last tile, or on an exhausted path, the movement turns `Idle`
/// and the counter is dropped.
pub fn movement_component_step(
    position: &mut TilePosition,
    movement: &mut MovementComponent,
    speed: &MovementSpeed,
    tick: &mut Option<MovementTick>,
)
    requires
        *old(movement) is FollowingPath && *old(tick) is Some ==> old(tick)->0.ticks_since_move < u32::MAX,
    ensures
        match *old(movement) {
            MovementComponent::FollowingPath { path, index } => {
                let waits = *old(tick) is Some && old(tick)->0.ticks_since_move + 1 < speed.ticks_per_move;
                if waits {
                    &&& *final(movement) == *old(movement)
                    &&& *final(position) == *old(position)
                    &&& *final(tick) == Some(MovementTick { ticks_since_move: (old(tick)->0.ticks_since_move + 1) as u32 })
                } else if index < path@.len() {
                    &&& final(position).tile == path@[index as int]
                    &&& if index + 1 >= path@.len() {
                        &&& *final(movement) is Idle
                        &&& *final(tick) is None
                    } else {
                        &&& *final(movement) == MovementComponent::FollowingPath { path, index: (index + 1) as usize }
                        &&& *final(tick) == Some(MovementTick { ticks_since_move: 0 })
                    }
                } else {
                    &&& *final(movement) is Idle
                    &&& *final(position) == *old(position)
                    &&& *final(tick) is None
                }
            },
            _ => *final(movement) == *old(movement) && *final(position) == *old(position) && *final(tick)
                == *old(tick),
        },
{
    let mut current = MovementComponent::Idle;
    std::mem::swap(&mut current, movement);
    match current {
        MovementComponent::FollowingPath { path, index } => {
            match tick {
                Some(t) => {
                    let n = t.ticks_since_move + 1;
                    if n < speed.ticks_per_move {
                        *tick = Some(MovementTick { ticks_since_move: n });
                        *movement = MovementComponent::FollowingPath { path, index };
                        return;
                    }
                },
                None => {},
            }
            *tick = Some(MovementTick { ticks_since_move: 0 });
            if index < path.len() {
                position.tile = path[index];
                if index + 1 >= path.len() {
                    *tick = None;
                } else {
                    *movement = MovementComponent::FollowingPath { path, index: index + 1 };
                }
            } else {
                *tick = None;
            }
        },
        other => {
            *movement = other;
        },
    }
}

} // verus!
