//! The read-only collaborators of the intersection core, modelled as plain
//! data: the road map (intersections and the geometric conflict relation
//! between turns), the control plans (stop-sign priorities and traffic-signal
//! cycles), and the per-tick snapshot of agent speeds and lane leadership.

use vstd::prelude::*;

use crate::types::{AgentID, Speed, Tick, TurnID, TurnPriority, EPSILON_SPEED};

verus! {

/// One intersection of the map. `id` doubles as the index of the
/// intersection's policy in the simulation state.
#[derive(PartialEq, Eq, Structural, Clone, Copy, Debug)]
pub struct Intersection {
    pub id: usize,
    pub has_traffic_signal: bool,
}

/// The map: intersections in id order, and the symmetric geometric conflict
/// relation between turns, given as a list of conflicting pairs.
pub struct RoadMap {
    pub intersections: Vec<Intersection>,
    pub conflicts: Vec<(TurnID, TurnID)>,
}

impl RoadMap {
    /// Intersection ids are positional, so a turn's `parent` indexes the
    /// policy vector directly.
    pub open spec fn wf(self) -> bool {
        forall|k: int|
            0 <= k < self.intersections@.len() ==> (#[trigger] self.intersections@[k]).id == k
    }

    /// Whether turns `a` and `b` cross; symmetric by construction.
    pub open spec fn conflicts_spec(self, a: TurnID, b: TurnID) -> bool {
        exists|i: int|
            0 <= i < self.conflicts@.len() && (#[trigger] self.conflicts@[i] == (a, b)
                || self.conflicts@[i] == (b, a))
    }

    /// Decides the conflict relation.
    pub fn conflicts_with(&self, a: TurnID, b: TurnID) -> (r: bool)
        ensures
            r == self.conflicts_spec(a, b),
    {
        let n = self.conflicts.len();
        let mut i: usize = 0;
        while i < n
            invariant
                i <= n,
                n == self.conflicts@.len(),
                forall|j: int|
                    0 <= j < i ==> !(#[trigger] self.conflicts@[j] == (a, b)
                        || self.conflicts@[j] == (b, a)),
            decreases n - i,
        {
            let (x, y) = self.conflicts[i];
            if (x == a && y == b) || (x == b && y == a) {
                assert(self.conflicts@[i as int] == (a, b) || self.conflicts@[i as int] == (b, a));
                return true;
            }
            i += 1;
        }
        false
    }
}

/// The stop-sign priority stored for turn `t`: the first matching entry, or
/// `Stop` when the plan does not mention the turn.
pub open spec fn priority_of(s: Seq<(TurnID, TurnPriority)>, t: TurnID) -> TurnPriority
    decreases s.len(),
{
    if s.len() == 0 {
        TurnPriority::Stop
    } else if s[0].0 == t {
        s[0].1
    } else {
        priority_of(s.drop_first(), t)
    }
}

/// The stop-sign plan of one intersection: a priority per turn, `Stop` where
/// unlisted.
pub struct ControlStopSign {
    pub priorities: Vec<(TurnID, TurnPriority)>,
}

impl ControlStopSign {
    /// Looks the turn's priority up.
    pub fn get_priority(&self, t: TurnID) -> (p: TurnPriority)
        ensures
            p == priority_of(self.priorities@, t),
    {
        let n = self.priorities.len();
        let mut i: usize = 0;
        assert(self.priorities@.skip(0) =~= self.priorities@);
        while i < n
            invariant
                i <= n,
                n == self.priorities@.len(),
                priority_of(self.priorities@, t) == priority_of(
                    self.priorities@.skip(i as int),
                    t,
                ),
            decreases n - i,
        {
            let (x, p) = self.priorities[i];
            assert(self.priorities@.skip(i as int)[0] == self.priorities@[i as int]);
            assert(self.priorities@.skip(i as int).drop_first() =~= self.priorities@.skip(
                i as int + 1,
            ));
            if x == t {
                return p;
            }
            i += 1;
        }
        assert(self.priorities@.skip(n as int) =~= Seq::<(TurnID, TurnPriority)>::empty());
        TurnPriority::Stop
    }
}

/// One phase of a signal program: the set of turns green in this phase.
pub struct Cycle {
    pub turns: Vec<TurnID>,
}

impl Cycle {
    /// Whether turn `t` is green in this phase.
    pub open spec fn contains_spec(self, t: TurnID) -> bool {
        self.turns@.contains(t)
    }

    /// Decides phase membership.
    pub fn contains(&self, t: TurnID) -> (r: bool)
        ensures
            r == self.contains_spec(t),
    {
        let n = self.turns.len();
        let mut i: usize = 0;
        while i < n
            invariant
                i <= n,
                n == self.turns@.len(),
                forall|j: int| 0 <= j < i ==> self.turns@[j] != t,
            decreases n - i,
        {
            if self.turns[i] == t {
                assert(self.turns@[i as int] == t);
                return true;
            }
            i += 1;
        }
        false
    }
}

/// The signal plan of one intersection: phases of equal duration, repeated
/// forever in order.
pub struct ControlTrafficSignal {
    pub cycles: Vec<Cycle>,
    pub cycle_duration: Tick,
}

impl ControlTrafficSignal {
    /// A usable plan has at least one phase and a positive phase length.
    pub open spec fn wf(self) -> bool {
        self.cycles@.len() > 0 && self.cycle_duration > 0
    }

    /// The index of the phase active at `time`.
    pub open spec fn current_cycle_index(self, time: Tick) -> int {
        ((time as int) / (self.cycle_duration as int)) % (self.cycles@.len() as int)
    }

    /// The active phase's index and how many ticks of it are left.
    pub fn current_cycle_and_remaining_time(&self, time: Tick) -> (r: (usize, Tick))
        requires
            self.wf(),
        ensures
            r.0 == self.current_cycle_index(time),
            r.1 == self.cycle_duration - time % self.cycle_duration,
    {
        let n = self.cycles.len();
        let idx64: u64 = (time / self.cycle_duration) % (n as u64);
        let remaining: Tick = self.cycle_duration - time % self.cycle_duration;
        (idx64 as usize, remaining)
    }
}

/// The first-match lookup in an association list keyed by intersection id.
pub open spec fn ss_find(s: Seq<(usize, ControlStopSign)>, id: usize) -> Option<ControlStopSign>
    decreases s.len(),
{
    if s.len() == 0 {
        Option::None
    } else if s[0].0 == id {
        Option::Some(s[0].1)
    } else {
        ss_find(s.drop_first(), id)
    }
}

/// The first-match lookup in an association list keyed by intersection id.
pub open spec fn ts_find(s: Seq<(usize, ControlTrafficSignal)>, id: usize) -> Option<
    ControlTrafficSignal,
>
    decreases s.len(),
{
    if s.len() == 0 {
        Option::None
    } else if s[0].0 == id {
        Option::Some(s[0].1)
    } else {
        ts_find(s.drop_first(), id)
    }
}

/// The control plans of the whole map: one stop-sign plan per stop-sign
/// intersection and one signal plan per signalized intersection.
pub struct ControlMap {
    pub stop_signs: Vec<(usize, ControlStopSign)>,
    pub traffic_signals: Vec<(usize, ControlTrafficSignal)>,
}

impl ControlMap {
    /// Every signal plan can be asked for its active phase.
    pub open spec fn wf(self) -> bool {
        forall|i: int|
            0 <= i < self.traffic_signals@.len() ==> (#[trigger] self.traffic_signals@[i]).1.wf()
    }

    /// The index of the stop-sign plan of intersection `id`, if one exists.
    pub fn stop_sign_index(&self, id: usize) -> (r: Option<usize>)
        ensures
            match r {
                Option::Some(i) => {
                    &&& 0 <= i < self.stop_signs@.len()
                    &&& self.stop_signs@[i as int].0 == id
                    &&& ss_find(self.stop_signs@, id) == Option::Some(self.stop_signs@[i as int].1)
                },
                Option::None => ss_find(self.stop_signs@, id) is None,
            },
    {
        let n = self.stop_signs.len();
        let mut i: usize = 0;
        assert(self.stop_signs@.skip(0) =~= self.stop_signs@);
        while i < n
            invariant
                i <= n,
                n == self.stop_signs@.len(),
                ss_find(self.stop_signs@, id) == ss_find(self.stop_signs@.skip(i as int), id),
            decreases n - i,
        {
            assert(self.stop_signs@.skip(i as int)[0] == self.stop_signs@[i as int]);
            assert(self.stop_signs@.skip(i as int).drop_first() =~= self.stop_signs@.skip(
                i as int + 1,
            ));
            if self.stop_signs[i].0 == id {
                return Option::Some(i);
            }
            i += 1;
        }
        assert(self.stop_signs@.skip(n as int) =~= Seq::<(usize, ControlStopSign)>::empty());
        Option::None
    }

    /// The index of the signal plan of intersection `id`, if one exists.
    pub fn traffic_signal_index(&self, id: usize) -> (r: Option<usize>)
        ensures
            match r {
                Option::Some(i) => {
                    &&& 0 <= i < self.traffic_signals@.len()
                    &&& self.traffic_signals@[i as int].0 == id
                    &&& ts_find(self.traffic_signals@, id) == Option::Some(
                        self.traffic_signals@[i as int].1,
                    )
                },
                Option::None => ts_find(self.traffic_signals@, id) is None,
            },
    {
        let n = self.traffic_signals.len();
        let mut i: usize = 0;
        assert(self.traffic_signals@.skip(0) =~= self.traffic_signals@);
        while i < n
            invariant
                i <= n,
                n == self.traffic_signals@.len(),
                ts_find(self.traffic_signals@, id) == ts_find(
                    self.traffic_signals@.skip(i as int),
                    id,
                ),
            decreases n - i,
        {
            assert(self.traffic_signals@.skip(i as int)[0] == self.traffic_signals@[i as int]);
            assert(self.traffic_signals@.skip(i as int).drop_first() =~= self.traffic_signals@.skip(
                i as int + 1,
            ));
            if self.traffic_signals[i].0 == id {
                return Option::Some(i);
            }
            i += 1;
        }
        assert(self.traffic_signals@.skip(n as int) =~= Seq::<(usize, ControlTrafficSignal)>::empty());
        Option::None
    }
}

/// The first-match speed lookup.
pub open spec fn speed_find(s: Seq<(AgentID, Speed)>, a: AgentID) -> Option<Speed>
    decreases s.len(),
{
    if s.len() == 0 {
        Option::None
    } else if s[0].0 == a {
        Option::Some(s[0].1)
    } else {
        speed_find(s.drop_first(), a)
    }
}

/// The per-tick snapshot handed to `step`: each moving agent's speed, and
/// which agents lead their lane's queue. Read-only during the step.
pub struct AgentInfo {
    pub speeds: Vec<(AgentID, Speed)>,
    pub leaders: Vec<AgentID>,
}

impl AgentInfo {
    /// Whether agent `a` leads its lane.
    pub open spec fn leader_spec(self, a: AgentID) -> bool {
        self.leaders@.contains(a)
    }

    /// Whether agent `a` has a recorded speed at or below the stopped
    /// threshold.
    pub open spec fn stopped_spec(self, a: AgentID) -> bool {
        match speed_find(self.speeds@, a) {
            Option::Some(v) => v <= EPSILON_SPEED,
            Option::None => false,
        }
    }

    /// Decides lane leadership.
    pub fn is_leader(&self, a: AgentID) -> (r: bool)
        ensures
            r == self.leader_spec(a),
    {
        let n = self.leaders.len();
        let mut i: usize = 0;
        while i < n
            invariant
                i <= n,
                n == self.leaders@.len(),
                forall|j: int| 0 <= j < i ==> self.leaders@[j] != a,
            decreases n - i,
        {
            if self.leaders[i] == a {
                assert(self.leaders@[i as int] == a);
                return true;
            }
            i += 1;
        }
        false
    }

    /// Decides whether the agent counts as stopped.
    pub fn is_stopped(&self, a: AgentID) -> (r: bool)
        ensures
            r == self.stopped_spec(a),
    {
        let n = self.speeds.len();
        let mut i: usize = 0;
        assert(self.speeds@.skip(0) =~= self.speeds@);
        while i < n
            invariant
                i <= n,
                n == self.speeds@.len(),
                speed_find(self.speeds@, a) == speed_find(self.speeds@.skip(i as int), a),
            decreases n - i,
        {
            assert(self.speeds@.skip(i as int)[0] == self.speeds@[i as int]);
            assert(self.speeds@.skip(i as int).drop_first() =~= self.speeds@.skip(i as int + 1));
            let (x, v) = self.speeds[i];
            if x == a {
                return v <= EPSILON_SPEED;
            }
            i += 1;
        }
        assert(self.speeds@.skip(n as int) =~= Seq::<(AgentID, Speed)>::empty());
        false
    }
}

} // verus!
