use intersection_sim::sim::IntersectionSimState;
use intersection_sim::types::{
    AgentID, CarID, Event, InvariantViolated, PedestrianID, Request, Speed, TurnID, TurnPriority,
    EPSILON_SPEED, WAIT_AT_STOP_SIGN,
};
use intersection_sim::world::{AgentInfo, ControlMap, ControlStopSign, Intersection, RoadMap};

fn turn(parent: usize, src: u64, dst: u64) -> TurnID {
    TurnID { parent, src, dst }
}

fn stop_map(conflicts: Vec<(TurnID, TurnID)>) -> RoadMap {
    RoadMap {
        intersections: vec![Intersection { id: 0, has_traffic_signal: false }],
        conflicts,
    }
}

fn stop_control(priorities: Vec<(TurnID, TurnPriority)>) -> ControlMap {
    ControlMap {
        stop_signs: vec![(0, ControlStopSign { priorities })],
        traffic_signals: vec![],
    }
}

fn snapshot(leaders: Vec<AgentID>, speeds: Vec<(AgentID, Speed)>) -> AgentInfo {
    AgentInfo { speeds, leaders }
}

#[test]
fn single_car_stop_sign_waits_full_delay() {
    let t = turn(0, 0, 1);
    let map = stop_map(vec![]);
    let control = stop_control(vec![(t, TurnPriority::Stop)]);
    let mut sim = IntersectionSimState::new(&map);
    let req = Request::for_car(CarID(1), t);
    assert_eq!(sim.submit_request(req), Ok(()));

    let mut events: Vec<Event> = Vec::new();
    let info = snapshot(vec![req.agent], vec![(req.agent, 0)]);
    let mut tick: u64 = 0;
    while tick < WAIT_AT_STOP_SIGN {
        sim.step(&mut events, tick, &map, &control, &info);
        assert!(!sim.request_granted(req), "admitted before the stop delay");
        assert!(events.is_empty());
        tick += 1;
    }
    sim.step(&mut events, WAIT_AT_STOP_SIGN, &map, &control, &info);
    assert!(sim.request_granted(req));
    assert_eq!(events, vec![Event::IntersectionAcceptsRequest(req)]);

    assert_eq!(sim.on_enter(req), Ok(()));
    sim.on_exit(req);
    assert!(!sim.request_granted(req));
}

#[test]
fn two_conflicting_stop_requests_resolve_by_agent_order() {
    let t1 = turn(0, 0, 10);
    let t2 = turn(0, 1, 10);
    let map = stop_map(vec![(t1, t2)]);
    let control = stop_control(vec![(t1, TurnPriority::Stop), (t2, TurnPriority::Stop)]);
    let mut sim = IntersectionSimState::new(&map);
    let ra = Request::for_car(CarID(1), t1);
    let rb = Request::for_car(CarID(2), t2);
    assert_eq!(sim.submit_request(ra), Ok(()));
    assert_eq!(sim.submit_request(rb), Ok(()));

    let info = snapshot(vec![ra.agent, rb.agent], vec![(ra.agent, 0), (rb.agent, 0)]);
    let mut events: Vec<Event> = Vec::new();
    for tick in 0..=WAIT_AT_STOP_SIGN {
        sim.step(&mut events, tick, &map, &control, &info);
    }
    assert!(sim.request_granted(ra), "the smaller agent id wins the slot");
    assert!(!sim.request_granted(rb), "the conflicting request keeps waiting");
    assert_eq!(events, vec![Event::IntersectionAcceptsRequest(ra)]);

    sim.on_exit(ra);
    sim.step(&mut events, WAIT_AT_STOP_SIGN + 1, &map, &control, &info);
    assert!(sim.request_granted(rb));
    assert_eq!(
        events,
        vec![
            Event::IntersectionAcceptsRequest(ra),
            Event::IntersectionAcceptsRequest(rb)
        ]
    );
}

#[test]
fn priority_turn_beats_conflicting_stop_turn() {
    let t_stop = turn(0, 0, 5);
    let t_prio = turn(0, 1, 5);
    let map = stop_map(vec![(t_stop, t_prio)]);
    let control = stop_control(vec![
        (t_stop, TurnPriority::Stop),
        (t_prio, TurnPriority::Priority),
    ]);
    let mut sim = IntersectionSimState::new(&map);
    // The stop-side agent has the smaller id, so it is considered first.
    let r_stop = Request::for_car(CarID(1), t_stop);
    let r_prio = Request::for_car(CarID(2), t_prio);
    assert_eq!(sim.submit_request(r_stop), Ok(()));
    assert_eq!(sim.submit_request(r_prio), Ok(()));

    // The priority agent is still rolling; no stop is required of it.
    let info = snapshot(
        vec![r_stop.agent, r_prio.agent],
        vec![(r_stop.agent, 0), (r_prio.agent, 5000)],
    );
    let mut events: Vec<Event> = Vec::new();
    sim.step(&mut events, 0, &map, &control, &info);
    assert!(sim.request_granted(r_prio), "no stop delay for a Priority turn");
    assert!(!sim.request_granted(r_stop), "blocked by the higher-priority conflict");
    assert_eq!(events, vec![Event::IntersectionAcceptsRequest(r_prio)]);
}

#[test]
fn non_leader_is_never_promoted() {
    let t = turn(0, 0, 1);
    let map = stop_map(vec![]);
    let control = stop_control(vec![(t, TurnPriority::Stop)]);
    let mut sim = IntersectionSimState::new(&map);
    let req = Request::for_car(CarID(7), t);
    assert_eq!(sim.submit_request(req), Ok(()));

    // Stopped at the line but stuck behind another car: nothing happens.
    let blocked = snapshot(vec![], vec![(req.agent, 0)]);
    let mut events: Vec<Event> = Vec::new();
    for tick in 0..20 {
        sim.step(&mut events, tick, &map, &control, &blocked);
    }
    assert!(!sim.request_granted(req));
    assert!(events.is_empty());

    // Once it leads its lane, the stop delay starts counting.
    let leading = snapshot(vec![req.agent], vec![(req.agent, 0)]);
    for tick in 20..(20 + WAIT_AT_STOP_SIGN) {
        sim.step(&mut events, tick, &map, &control, &leading);
        assert!(!sim.request_granted(req));
    }
    sim.step(&mut events, 20 + WAIT_AT_STOP_SIGN, &map, &control, &leading);
    assert!(sim.request_granted(req));
    assert_eq!(events.len(), 1);
}

#[test]
fn epsilon_speed_is_the_stopped_threshold() {
    let t = turn(0, 0, 1);
    let map = stop_map(vec![]);
    let control = stop_control(vec![(t, TurnPriority::Stop)]);

    // Exactly at the threshold: counts as stopped, admitted after the delay.
    let mut sim = IntersectionSimState::new(&map);
    let req = Request::for_car(CarID(1), t);
    sim.submit_request(req).unwrap();
    let slow = snapshot(vec![req.agent], vec![(req.agent, EPSILON_SPEED)]);
    let mut events: Vec<Event> = Vec::new();
    for tick in 0..=WAIT_AT_STOP_SIGN {
        sim.step(&mut events, tick, &map, &control, &slow);
    }
    assert!(sim.request_granted(req));

    // Just above the threshold: never counts as stopped.
    let mut sim2 = IntersectionSimState::new(&map);
    sim2.submit_request(req).unwrap();
    let moving = snapshot(vec![req.agent], vec![(req.agent, EPSILON_SPEED + 1)]);
    let mut events2: Vec<Event> = Vec::new();
    for tick in 0..40 {
        sim2.step(&mut events2, tick, &map, &control, &moving);
    }
    assert!(!sim2.request_granted(req));

    // A Yield turn needs no stop at all.
    let control_yield = stop_control(vec![(t, TurnPriority::Yield)]);
    let mut sim3 = IntersectionSimState::new(&map);
    sim3.submit_request(req).unwrap();
    let mut events3: Vec<Event> = Vec::new();
    sim3.step(&mut events3, 0, &map, &control_yield, &moving);
    assert!(sim3.request_granted(req));
}

#[test]
fn pedestrian_requests_use_the_same_rules() {
    let t = turn(0, 3, 4);
    let map = stop_map(vec![]);
    let control = stop_control(vec![(t, TurnPriority::Priority)]);
    let mut sim = IntersectionSimState::new(&map);
    let req = Request::for_ped(PedestrianID(9), t);
    assert_eq!(req.agent, AgentID::Pedestrian(PedestrianID(9)));
    sim.submit_request(req).unwrap();
    let info = snapshot(vec![req.agent], vec![(req.agent, 900)]);
    let mut events: Vec<Event> = Vec::new();
    sim.step(&mut events, 0, &map, &control, &info);
    assert!(sim.request_granted(req));
}

#[test]
fn changing_turns_mid_grant_is_an_error() {
    let t1 = turn(0, 0, 1);
    let t2 = turn(0, 0, 2);
    let map = stop_map(vec![]);
    let control = stop_control(vec![(t1, TurnPriority::Priority)]);
    let mut sim = IntersectionSimState::new(&map);
    let agent = AgentID::Car(CarID(4));
    let r1 = Request { agent, turn: t1 };
    let r2 = Request { agent, turn: t2 };
    sim.submit_request(r1).unwrap();
    let info = snapshot(vec![agent], vec![(agent, 0)]);
    let mut events: Vec<Event> = Vec::new();
    sim.step(&mut events, 0, &map, &control, &info);
    assert!(sim.request_granted(r1));

    // Same request again: silently fine.
    assert_eq!(sim.submit_request(r1), Ok(()));
    // A different turn for the same agent: upstream bug, surfaced.
    assert_eq!(
        sim.submit_request(r2),
        Err(InvariantViolated::ChangedTurn(r2, t1))
    );
}

#[test]
fn changing_turns_while_pending_is_an_error() {
    let t1 = turn(0, 0, 1);
    let t2 = turn(0, 0, 2);
    let map = stop_map(vec![]);
    let control = stop_control(vec![(t1, TurnPriority::Stop), (t2, TurnPriority::Stop)]);
    let mut sim = IntersectionSimState::new(&map);
    let agent = AgentID::Car(CarID(6));
    let r1 = Request { agent, turn: t1 };
    let r2 = Request { agent, turn: t2 };

    // A second turn while the first is still approaching is rejected.
    assert_eq!(sim.submit_request(r1), Ok(()));
    assert_eq!(
        sim.submit_request(r2),
        Err(InvariantViolated::ChangedTurn(r2, t1))
    );
    // The same turn again stays a silent no-op.
    assert_eq!(sim.submit_request(r1), Ok(()));

    // Also once the first request has been promoted to waiting.
    let info = snapshot(vec![agent], vec![(agent, 0)]);
    let mut events: Vec<Event> = Vec::new();
    sim.step(&mut events, 0, &map, &control, &info);
    assert_eq!(
        sim.submit_request(r2),
        Err(InvariantViolated::ChangedTurn(r2, t1))
    );
    assert_eq!(sim.submit_request(r1), Ok(()));
}

#[test]
fn entering_without_a_grant_is_an_error() {
    let t = turn(0, 0, 1);
    let map = stop_map(vec![]);
    let mut sim = IntersectionSimState::new(&map);
    let req = Request::for_car(CarID(2), t);
    sim.submit_request(req).unwrap();
    assert_eq!(
        sim.on_enter(req),
        Err(InvariantViolated::NotAccepted(req))
    );
}
