use intersection_sim::policy::IntersectionPolicy;
use intersection_sim::sim::IntersectionSimState;
use intersection_sim::types::{
    AgentID, CarID, Event, Request, Speed, TurnID, TurnPriority, WAIT_AT_STOP_SIGN,
};
use intersection_sim::world::{
    AgentInfo, ControlMap, ControlStopSign, Intersection, RoadMap,
};

fn turn(parent: usize, src: u64, dst: u64) -> TurnID {
    TurnID { parent, src, dst }
}

fn two_stop_map(conflicts: Vec<(TurnID, TurnID)>) -> RoadMap {
    RoadMap {
        intersections: vec![
            Intersection { id: 0, has_traffic_signal: false },
            Intersection { id: 1, has_traffic_signal: false },
        ],
        conflicts,
    }
}

fn two_stop_control(priorities: Vec<(TurnID, TurnPriority)>) -> ControlMap {
    ControlMap {
        stop_signs: vec![
            (0, ControlStopSign { priorities: priorities.clone() }),
            (1, ControlStopSign { priorities }),
        ],
        traffic_signals: vec![],
    }
}

fn snapshot(leaders: Vec<AgentID>, speeds: Vec<(AgentID, Speed)>) -> AgentInfo {
    AgentInfo { speeds, leaders }
}

#[test]
fn submitting_twice_equals_submitting_once() {
    let t = turn(0, 0, 1);
    let map = two_stop_map(vec![]);
    let req = Request::for_car(CarID(1), t);

    let mut once = IntersectionSimState::new(&map);
    once.submit_request(req).unwrap();

    let mut twice = IntersectionSimState::new(&map);
    twice.submit_request(req).unwrap();
    twice.submit_request(req).unwrap();

    assert_eq!(once, twice);
}

#[test]
fn submission_order_does_not_matter() {
    let t1 = turn(0, 0, 1);
    let t2 = turn(0, 2, 3);
    let map = two_stop_map(vec![(t1, t2)]);
    let control = two_stop_control(vec![(t1, TurnPriority::Stop), (t2, TurnPriority::Stop)]);
    let r1 = Request::for_car(CarID(1), t1);
    let r2 = Request::for_car(CarID(2), t2);
    let info = snapshot(vec![r1.agent, r2.agent], vec![(r1.agent, 0), (r2.agent, 0)]);

    let mut forward = IntersectionSimState::new(&map);
    forward.submit_request(r1).unwrap();
    forward.submit_request(r2).unwrap();

    let mut backward = IntersectionSimState::new(&map);
    backward.submit_request(r2).unwrap();
    backward.submit_request(r1).unwrap();

    assert_eq!(forward, backward);

    let mut ev_f: Vec<Event> = Vec::new();
    let mut ev_b: Vec<Event> = Vec::new();
    for tick in 0..=WAIT_AT_STOP_SIGN {
        forward.step(&mut ev_f, tick, &map, &control, &info);
        backward.step(&mut ev_b, tick, &map, &control, &info);
    }
    assert_eq!(forward, backward);
    assert_eq!(ev_f, ev_b);
}

#[test]
fn identical_runs_produce_identical_states() {
    let t1 = turn(0, 0, 1);
    let t2 = turn(1, 0, 1);
    let map = two_stop_map(vec![]);
    let control = two_stop_control(vec![
        (t1, TurnPriority::Stop),
        (t2, TurnPriority::Yield),
    ]);
    let r1 = Request::for_car(CarID(3), t1);
    let r2 = Request::for_car(CarID(4), t2);
    let info = snapshot(vec![r1.agent, r2.agent], vec![(r1.agent, 0), (r2.agent, 400)]);

    let run = || -> (IntersectionSimState, Vec<Event>) {
        let mut sim = IntersectionSimState::new(&map);
        let mut events: Vec<Event> = Vec::new();
        for tick in 0..30 {
            if tick < 10 {
                sim.submit_request(r1).unwrap();
                sim.submit_request(r2).unwrap();
            }
            sim.step(&mut events, tick, &map, &control, &info);
            if tick == 20 && sim.request_granted(r2) {
                sim.on_exit(r2);
            }
        }
        (sim, events)
    };

    let (s1, e1) = run();
    let (s2, e2) = run();
    assert_eq!(s1, s2);
    assert_eq!(e1, e2);
}

#[test]
fn grant_persists_until_exit() {
    let t = turn(0, 0, 1);
    let map = two_stop_map(vec![]);
    let control = two_stop_control(vec![(t, TurnPriority::Priority)]);
    let mut sim = IntersectionSimState::new(&map);
    let req = Request::for_car(CarID(1), t);
    sim.submit_request(req).unwrap();
    let info = snapshot(vec![req.agent], vec![(req.agent, 0)]);
    let mut events: Vec<Event> = Vec::new();
    sim.step(&mut events, 0, &map, &control, &info);
    assert!(sim.request_granted(req));

    // Further submissions and ticks never withdraw the grant.
    for tick in 1..10 {
        sim.submit_request(req).unwrap();
        sim.step(&mut events, tick, &map, &control, &info);
        assert!(sim.request_granted(req));
    }
    sim.on_exit(req);
    assert!(!sim.request_granted(req));
}

#[test]
fn hundred_submissions_one_admission_event() {
    let t = turn(0, 0, 1);
    let map = two_stop_map(vec![]);
    let control = two_stop_control(vec![(t, TurnPriority::Stop)]);
    let mut sim = IntersectionSimState::new(&map);
    let req = Request::for_car(CarID(1), t);
    let info = snapshot(vec![req.agent], vec![(req.agent, 0)]);
    let mut events: Vec<Event> = Vec::new();

    for tick in 0..10 {
        for _ in 0..10 {
            sim.submit_request(req).unwrap();
        }
        sim.step(&mut events, tick, &map, &control, &info);
        assert!(!sim.request_granted(req));
    }
    let mut tick = 10;
    while !sim.request_granted(req) {
        sim.step(&mut events, tick, &map, &control, &info);
        tick += 1;
        assert!(tick < 40, "request was never admitted");
    }
    assert_eq!(events, vec![Event::IntersectionAcceptsRequest(req)]);

    // Re-submitting an already granted request stays silent.
    sim.submit_request(req).unwrap();
    assert_eq!(events.len(), 1);
}

#[test]
fn intersections_step_in_id_order() {
    let t0 = turn(0, 0, 1);
    let t1 = turn(1, 0, 1);
    let map = two_stop_map(vec![]);
    let control = two_stop_control(vec![
        (t0, TurnPriority::Priority),
        (t1, TurnPriority::Priority),
    ]);
    let mut sim = IntersectionSimState::new(&map);
    let r0 = Request::for_car(CarID(8), t0);
    let r1 = Request::for_car(CarID(2), t1);
    // Submitted in reverse intersection order.
    sim.submit_request(r1).unwrap();
    sim.submit_request(r0).unwrap();
    let info = snapshot(vec![r0.agent, r1.agent], vec![(r0.agent, 0), (r1.agent, 0)]);
    let mut events: Vec<Event> = Vec::new();
    sim.step(&mut events, 0, &map, &control, &info);
    assert_eq!(
        events,
        vec![
            Event::IntersectionAcceptsRequest(r0),
            Event::IntersectionAcceptsRequest(r1)
        ]
    );
}

#[test]
fn stop_dwell_is_measured_from_promotion() {
    let t = turn(0, 0, 1);
    let map = two_stop_map(vec![]);
    let control = two_stop_control(vec![(t, TurnPriority::Stop)]);
    let mut sim = IntersectionSimState::new(&map);
    let req = Request::for_car(CarID(1), t);
    sim.submit_request(req).unwrap();

    // Rolling for the first five ticks: not promoted, the clock is idle.
    let rolling = snapshot(vec![req.agent], vec![(req.agent, 2000)]);
    let stopped = snapshot(vec![req.agent], vec![(req.agent, 0)]);
    let mut events: Vec<Event> = Vec::new();
    for tick in 0..5 {
        sim.step(&mut events, tick, &map, &control, &rolling);
    }
    // Stops at tick 5: the dwell runs from there, so admission is at
    // tick 5 + WAIT_AT_STOP_SIGN, not earlier.
    let mut tick = 5;
    while tick < 5 + WAIT_AT_STOP_SIGN {
        sim.step(&mut events, tick, &map, &control, &stopped);
        assert!(!sim.request_granted(req));
        tick += 1;
    }
    sim.step(&mut events, 5 + WAIT_AT_STOP_SIGN, &map, &control, &stopped);
    assert!(sim.request_granted(req));
}

fn debug_flag(sim: &IntersectionSimState, k: usize) -> bool {
    match &sim.intersections[k] {
        IntersectionPolicy::StopSignPolicy(s) => s.debug,
        IntersectionPolicy::TrafficSignalPolicy(s) => s.debug,
    }
}

#[test]
fn debug_toggle_moves_between_intersections() {
    let map = two_stop_map(vec![]);
    let mut sim = IntersectionSimState::new(&map);
    assert_eq!(sim.debug, None);
    assert!(!debug_flag(&sim, 0) && !debug_flag(&sim, 1));
    sim.debug(1);
    assert_eq!(sim.debug, Some(1));
    assert!(!debug_flag(&sim, 0) && debug_flag(&sim, 1));
    sim.debug(0);
    assert_eq!(sim.debug, Some(0));
    assert!(debug_flag(&sim, 0) && !debug_flag(&sim, 1));
}
