use intersection_sim::sim::IntersectionSimState;
use intersection_sim::types::{
    AgentID, CarID, Event, Request, Speed, TurnID,
};
use intersection_sim::world::{
    AgentInfo, ControlMap, ControlTrafficSignal, Cycle, Intersection, RoadMap,
};

fn turn(parent: usize, src: u64, dst: u64) -> TurnID {
    TurnID { parent, src, dst }
}

fn signal_map() -> RoadMap {
    RoadMap {
        intersections: vec![Intersection { id: 0, has_traffic_signal: true }],
        conflicts: vec![],
    }
}

fn signal_control(cycles: Vec<Vec<TurnID>>, cycle_duration: u64) -> ControlMap {
    ControlMap {
        stop_signs: vec![],
        traffic_signals: vec![(
            0,
            ControlTrafficSignal {
                cycles: cycles.into_iter().map(|turns| Cycle { turns }).collect(),
                cycle_duration,
            },
        )],
    }
}

fn snapshot(leaders: Vec<AgentID>, speeds: Vec<(AgentID, Speed)>) -> AgentInfo {
    AgentInfo { speeds, leaders }
}

#[test]
fn green_leader_is_admitted_at_once() {
    let t = turn(0, 0, 1);
    let map = signal_map();
    let control = signal_control(vec![vec![t], vec![]], 10);
    let mut sim = IntersectionSimState::new(&map);
    let req = Request::for_car(CarID(1), t);
    sim.submit_request(req).unwrap();
    let info = snapshot(vec![req.agent], vec![(req.agent, 3000)]);
    let mut events: Vec<Event> = Vec::new();
    sim.step(&mut events, 0, &map, &control, &info);
    assert!(sim.request_granted(req));
    assert_eq!(events, vec![Event::IntersectionAcceptsRequest(req)]);
}

#[test]
fn red_turn_is_retained_until_green() {
    let t_red = turn(0, 2, 3);
    let map = signal_map();
    // The second phase contains the turn; the first does not.
    let control = signal_control(vec![vec![], vec![t_red]], 10);
    let mut sim = IntersectionSimState::new(&map);
    let req = Request::for_car(CarID(1), t_red);
    sim.submit_request(req).unwrap();
    let info = snapshot(vec![req.agent], vec![(req.agent, 3000)]);
    let mut events: Vec<Event> = Vec::new();
    for tick in 0..10 {
        sim.step(&mut events, tick, &map, &control, &info);
        assert!(!sim.request_granted(req));
    }
    sim.step(&mut events, 10, &map, &control, &info);
    assert!(sim.request_granted(req));
    assert_eq!(events.len(), 1);
}

#[test]
fn cycle_change_with_lingering_agent_freezes_admissions() {
    let t1 = turn(0, 0, 1);
    let t2 = turn(0, 2, 3);
    let map = signal_map();
    let control = signal_control(vec![vec![t1], vec![t2]], 10);
    let mut sim = IntersectionSimState::new(&map);
    let ra = Request::for_car(CarID(1), t1);
    let rb = Request::for_car(CarID(2), t2);
    let info = snapshot(vec![ra.agent, rb.agent], vec![(ra.agent, 3000), (rb.agent, 3000)]);
    let mut events: Vec<Event> = Vec::new();

    sim.submit_request(ra).unwrap();
    sim.step(&mut events, 0, &map, &control, &info);
    assert!(sim.request_granted(ra));

    // The cycle flips while the first agent is still crossing: even the
    // now-green, non-conflicting request is not admitted this tick.
    sim.submit_request(rb).unwrap();
    sim.step(&mut events, 10, &map, &control, &info);
    assert!(!sim.request_granted(rb));
    assert!(sim.request_granted(ra), "the lingering grant is not revoked");
    assert_eq!(events.len(), 1);

    // After the crossing agent leaves, normal admission resumes.
    sim.on_exit(ra);
    sim.step(&mut events, 11, &map, &control, &info);
    assert!(sim.request_granted(rb));
    assert_eq!(events.len(), 2);
}

#[test]
fn signal_ignores_non_leaders() {
    let t = turn(0, 0, 1);
    let map = signal_map();
    let control = signal_control(vec![vec![t]], 10);
    let mut sim = IntersectionSimState::new(&map);
    let req = Request::for_car(CarID(5), t);
    sim.submit_request(req).unwrap();
    let stuck = snapshot(vec![], vec![(req.agent, 3000)]);
    let mut events: Vec<Event> = Vec::new();
    for tick in 0..5 {
        sim.step(&mut events, tick, &map, &control, &stuck);
    }
    assert!(!sim.request_granted(req));
    let leading = snapshot(vec![req.agent], vec![(req.agent, 3000)]);
    sim.step(&mut events, 5, &map, &control, &leading);
    assert!(sim.request_granted(req));
}

#[test]
fn remaining_time_counts_down_within_the_cycle() {
    let control = signal_control(vec![vec![], vec![]], 10);
    let plan = &control.traffic_signals[0].1;
    assert_eq!(plan.current_cycle_and_remaining_time(0), (0, 10));
    assert_eq!(plan.current_cycle_and_remaining_time(3), (0, 7));
    assert_eq!(plan.current_cycle_and_remaining_time(10), (1, 10));
    assert_eq!(plan.current_cycle_and_remaining_time(19), (1, 1));
    assert_eq!(plan.current_cycle_and_remaining_time(20), (0, 10));
}
