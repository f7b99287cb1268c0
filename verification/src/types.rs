//! Value types shared by every intersection policy: agent and turn
//! identifiers, requests, emitted events, errors, and the total orders that
//! keep all persisted containers sorted and therefore deterministic.

use vstd::prelude::*;

verus! {

/// One simulation tick. Ticks advance in tenths of a second.
pub type Tick = u64;

/// Scalar speed of an agent, in millimeters per second.
pub type Speed = u64;

/// Agents moving at most this fast (just under 0.01 m/s) count as stopped.
pub const EPSILON_SPEED: Speed = 9;

/// How long an agent must dwell at a stop sign before it may be admitted:
/// 1.5 seconds, i.e. 15 ticks.
pub const WAIT_AT_STOP_SIGN: Tick = 15;

/// Identifier of a car.
#[derive(PartialEq, Eq, Structural, PartialOrd, Ord, Clone, Copy, Debug, Hash)]
pub struct CarID(pub u64);

/// Identifier of a pedestrian.
#[derive(PartialEq, Eq, Structural, PartialOrd, Ord, Clone, Copy, Debug, Hash)]
pub struct PedestrianID(pub u64);

/// An agent is either a car or a pedestrian; the two id spaces are disjoint.
/// Agents are totally ordered: all cars before all pedestrians, each group
/// by its numeric id.
#[derive(PartialEq, Eq, Structural, PartialOrd, Ord, Clone, Copy, Debug, Hash)]
pub enum AgentID {
    Car(CarID),
    Pedestrian(PedestrianID),
}

/// Identifier of one turn: a movement through intersection `parent` from
/// lane `src` to lane `dst`. Turns of different intersections never
/// conflict.
#[derive(PartialEq, Eq, Structural, PartialOrd, Ord, Clone, Copy, Debug, Hash)]
pub struct TurnID {
    pub parent: usize,
    pub src: u64,
    pub dst: u64,
}

/// An agent asking to traverse one turn. Ordered by agent first, then turn.
#[derive(PartialEq, Eq, Structural, PartialOrd, Ord, Clone, Copy, Debug, Hash)]
pub struct Request {
    pub agent: AgentID,
    pub turn: TurnID,
}

impl Request {
    /// The request of car `car` for turn `t`.
    pub fn for_car(car: CarID, t: TurnID) -> (r: Request)
        ensures
            r == (Request { agent: AgentID::Car(car), turn: t }),
    {
        Request { agent: AgentID::Car(car), turn: t }
    }

    /// The request of pedestrian `ped` for turn `t`.
    pub fn for_ped(ped: PedestrianID, t: TurnID) -> (r: Request)
        ensures
            r == (Request { agent: AgentID::Pedestrian(ped), turn: t }),
    {
        Request { agent: AgentID::Pedestrian(ped), turn: t }
    }
}

/// Per-turn stop-sign classification. `Stop` must halt and dwell,
/// `Yield` and `Priority` may roll through; higher classifications beat
/// lower ones when conflicting requests wait together.
#[derive(PartialEq, Eq, Structural, Clone, Copy, Debug, Hash)]
pub enum TurnPriority {
    Stop,
    Yield,
    Priority,
}

/// Numeric rank of a priority class; bigger ranks win.
pub open spec fn priority_rank(p: TurnPriority) -> int {
    match p {
        TurnPriority::Stop => 0,
        TurnPriority::Yield => 1,
        TurnPriority::Priority => 2,
    }
}

/// Output events appended by `step`: one per newly admitted request.
#[derive(PartialEq, Eq, Structural, Clone, Copy, Debug)]
pub enum Event {
    IntersectionAcceptsRequest(Request),
}

/// A caller broke the protocol: these signal upstream bugs, never normal
/// flow. The offending request is carried along with what the intersection
/// had already granted.
#[derive(PartialEq, Eq, Structural, Clone, Copy, Debug)]
pub enum InvariantViolated {
    /// The agent already holds a grant or a pending request for a
    /// different turn and may not change its mind mid-flight; the turn it
    /// already holds is carried along.
    ChangedTurn(Request, TurnID),
    /// The agent entered the intersection without having been granted
    /// its request.
    NotAccepted(Request),
}

/// Strict total order on agents: cars before pedestrians, then by id.
pub open spec fn agent_lt(a: AgentID, b: AgentID) -> bool {
    match (a, b) {
        (AgentID::Car(x), AgentID::Car(y)) => x.0 < y.0,
        (AgentID::Car(_), AgentID::Pedestrian(_)) => true,
        (AgentID::Pedestrian(_), AgentID::Car(_)) => false,
        (AgentID::Pedestrian(x), AgentID::Pedestrian(y)) => x.0 < y.0,
    }
}

/// Strict total order on turns: by intersection, then source, then
/// destination lane.
pub open spec fn turn_lt(a: TurnID, b: TurnID) -> bool {
    a.parent < b.parent
        || (a.parent == b.parent && a.src < b.src)
        || (a.parent == b.parent && a.src == b.src && a.dst < b.dst)
}

/// Strict total order on requests: by agent, then turn.
pub open spec fn req_lt(a: Request, b: Request) -> bool {
    agent_lt(a.agent, b.agent) || (a.agent == b.agent && turn_lt(a.turn, b.turn))
}

/// Decides `agent_lt` at run time.
pub fn agent_lt_exec(a: AgentID, b: AgentID) -> (r: bool)
    ensures
        r == agent_lt(a, b),
{
    match (a, b) {
        (AgentID::Car(x), AgentID::Car(y)) => x.0 < y.0,
        (AgentID::Car(_), AgentID::Pedestrian(_)) => true,
        (AgentID::Pedestrian(_), AgentID::Car(_)) => false,
        (AgentID::Pedestrian(x), AgentID::Pedestrian(y)) => x.0 < y.0,
    }
}

/// Decides `turn_lt` at run time.
pub fn turn_lt_exec(a: TurnID, b: TurnID) -> (r: bool)
    ensures
        r == turn_lt(a, b),
{
    if a.parent != b.parent {
        a.parent < b.parent
    } else if a.src != b.src {
        a.src < b.src
    } else {
        a.dst < b.dst
    }
}

/// Decides `req_lt` at run time.
pub fn req_lt_exec(a: Request, b: Request) -> (r: bool)
    ensures
        r == req_lt(a, b),
{
    if a.agent == b.agent {
        turn_lt_exec(a.turn, b.turn)
    } else {
        agent_lt_exec(a.agent, b.agent)
    }
}

} // verus!
