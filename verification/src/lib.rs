//! Intersection coordination core of a deterministic traffic microsimulation.
//!
//! At every simulation tick the core decides which agents (cars and
//! pedestrians) are authorized to traverse which turns through an
//! intersection, respecting stop-sign priority, traffic-signal cycles and
//! conflict-free turn geometry. All state lives in sorted containers so that
//! behaviour and serialized snapshots are reproducible across runs.

pub mod laws;
pub mod policy;
pub mod sim;
pub mod sorted;
pub mod types;
pub mod world;

pub use policy::IntersectionPolicy;
pub use sim::IntersectionSimState;
pub use types::{
    AgentID, CarID, Event, InvariantViolated, PedestrianID, Request, Speed, Tick, TurnID,
    TurnPriority, EPSILON_SPEED, WAIT_AT_STOP_SIGN,
};
pub use world::{
    AgentInfo, ControlMap, ControlStopSign, ControlTrafficSignal, Cycle, Intersection, RoadMap,
};
