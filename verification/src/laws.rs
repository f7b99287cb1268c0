//! The guarantees that hold of the core across whole call sequences, stated
//! over the same spec-level models that the executable operations are proved
//! equal to: safety of the accepted maps, idempotent and order-independent
//! submission, persistence of grants, the stop-sign dwell bound, and
//! determinism of the tick.

use vstd::prelude::*;

use crate::policy::{
    acc_ok, admit_cond, cycle_of, cycle_ok, lemma_keep_unadmitted_mem, lemma_ss_admit_admitted, lemma_ss_admit_dwell, lemma_ss_admit_grows, lemma_ss_admit_iff,
    lemma_ss_admit_safe, lemma_ss_admit_sorted, lemma_ss_promote_agents,
    lemma_ss_promote_sorted, lemma_ts_admit_iff, lemma_ts_admit_safe, policy_accepted,
    policy_times_le, policy_wf_at, ss_acc_before, ss_promote_from, ss_step_spec, ss_times_le,
    ss_wf, ts_admit_cond, ts_frozen, ts_step_spec, ts_wf, PolicyView, StopSignView,
    TrafficSignalView,
};
use crate::sim::{
    granted_spec, lemma_submit_preserves_wf, policy_step_spec, policy_submit_spec,
    sim_step_admitted, sim_submit_spec, sim_times_le, sim_wf, SimView,
};
use crate::sorted::{
    acc_at, acc_has, lemma_acc_at, lemma_reqs_agent_find_stable, lemma_reqs_agent_find_witness,
    lemma_reqset_insert_membership, lemma_reqset_insert_sorted, lemma_sorted_reqs_canonical,
    lemma_wait_at, reqs_agent_find, reqset_insert, wait_agent_find, wait_at, wait_has,
};

use crate::types::{Request, Tick, TurnPriority, WAIT_AT_STOP_SIGN};
use crate::world::{priority_of, ss_find, ts_find, AgentInfo, ControlMap, ControlStopSign, RoadMap};

verus! {

/// No intersection's accepted map holds two crossing turns.
pub open spec fn sim_safe(m: RoadMap, v: SimView) -> bool {
    forall|k: int|
        0 <= k < v.intersections.len() ==> acc_ok(
            m,
            policy_accepted(#[trigger] v.intersections[k]),
        )
}

/// Every phase of every signal plan is conflict-free; supplying such plans
/// is the control layer's obligation.
pub open spec fn control_cycles_ok(m: RoadMap, c: ControlMap) -> bool {
    forall|i: int, j: int|
        0 <= i < c.traffic_signals@.len() && 0 <= j
            < c.traffic_signals@[i].1.cycles@.len() ==> cycle_ok(
            m,
            #[trigger] c.traffic_signals@[i].1.cycles@[j],
        )
}

/// A first-match hit of a signal plan is one of the stored plans.
proof fn lemma_ts_find_mem(s: Seq<(usize, crate::world::ControlTrafficSignal)>, id: usize)
    ensures
        ts_find(s, id) is Some ==> exists|i: int|
            0 <= i < s.len() && #[trigger] s[i] == (id, ts_find(s, id)->Some_0),
    decreases s.len(),
{
    if s.len() == 0 {
    } else if s[0].0 == id {
        assert(s[0] == (id, ts_find(s, id)->Some_0));
    } else {
        lemma_ts_find_mem(s.drop_first(), id);
        if ts_find(s, id) is Some {
            let i = choose|i: int|
                0 <= i < s.drop_first().len() && #[trigger] s.drop_first()[i] == (
                    id,
                    ts_find(s.drop_first(), id)->Some_0,
                );
            assert(s[i + 1] == (id, ts_find(s, id)->Some_0));
        }
    }
}

/// Submitting never touches any accepted map, so it cannot break safety
/// and cannot grant anything.
pub proof fn lemma_submit_preserves_safety(m: RoadMap, v: SimView, req: Request)
    requires
        sim_wf(v),
        req.turn.parent < v.intersections.len(),
        sim_safe(m, v),
    ensures
        sim_safe(m, sim_submit_spec(v, req).0),
        forall|r2: Request|
            r2.turn.parent < v.intersections.len() ==> (#[trigger] granted_spec(
                sim_submit_spec(v, req).0,
                r2,
            ) == granted_spec(v, r2)),
{
    let out = sim_submit_spec(v, req).0;
    let k = req.turn.parent as int;
    assert(policy_accepted(out.intersections[k]) == policy_accepted(v.intersections[k]));
    assert forall|j: int| 0 <= j < out.intersections.len() implies acc_ok(
        m,
        policy_accepted(#[trigger] out.intersections[j]),
    ) by {
        if j != k {
            assert(out.intersections[j] == v.intersections[j]);
        }
        assert(acc_ok(m, policy_accepted(v.intersections[j])));
    }
    assert forall|r2: Request| r2.turn.parent < v.intersections.len() implies (
    #[trigger] granted_spec(out, r2) == granted_spec(v, r2)) by {
        let k2 = r2.turn.parent as int;
        if k2 != k {
            assert(out.intersections[k2] == v.intersections[k2]);
        }
        assert(policy_accepted(out.intersections[k2]) == policy_accepted(v.intersections[k2]));
    }
}

/// One tick preserves safety of every intersection, given conflict-free
/// signal phases. The stop-sign policy re-checks conflicts on every
/// admission; the signal policy relies on the phase and the freeze guard.
pub proof fn lemma_step_preserves_safety(
    m: RoadMap,
    c: ControlMap,
    info: AgentInfo,
    time: Tick,
    v: SimView,
)
    requires
        sim_wf(v),
        sim_times_le(v, time),
        sim_safe(m, v),
        control_cycles_ok(m, c),
    ensures
        forall|k: int|
            0 <= k < v.intersections.len() ==> acc_ok(
                m,
                policy_accepted(
                    policy_step_spec(#[trigger] v.intersections[k], time, m, c, info).0,
                ),
            ),
{
    assert forall|k: int| 0 <= k < v.intersections.len() implies acc_ok(
        m,
        policy_accepted(policy_step_spec(#[trigger] v.intersections[k], time, m, c, info).0),
    ) by {
        let p = v.intersections[k];
        assert(policy_wf_at(p, k));
        assert(acc_ok(m, policy_accepted(p)));
        match p {
            PolicyView::StopSign(sv) => {
                match ss_find(c.stop_signs@, sv.id) {
                    Option::Some(ctl) => {
                        assert(policy_times_le(v.intersections[k], time));
                        lemma_ss_promote_agents(sv.approaching, sv.waiting, sv.accepted, ctl, info, time);
                        let pr = ss_promote_from(sv.approaching, 0, sv.waiting, ctl, info, time);
                        lemma_ss_admit_safe(pr.1, 0, sv.accepted, m, ctl, time);
                    },
                    Option::None => {},
                }
            },
            PolicyView::TrafficSignal(tv) => {
                match ts_find(c.traffic_signals@, tv.id) {
                    Option::Some(ctl) => {
                        if ctl.wf() {
                            let cyc = cycle_of(ctl, time);
                            if ts_frozen(tv, cyc) {
                            } else {
                                lemma_ts_find_mem(c.traffic_signals@, tv.id);
                                let i = choose|i: int|
                                    0 <= i < c.traffic_signals@.len()
                                        && #[trigger] c.traffic_signals@[i] == (tv.id, ctl);
                                assert(0 <= ctl.current_cycle_index(time) < ctl.cycles@.len());
                                assert(c.traffic_signals@[i].1 == ctl);
                                assert(cycle_ok(
                                    m,
                                    c.traffic_signals@[i].1.cycles@[ctl.current_cycle_index(
                                        time,
                                    )],
                                ));
                                assert(cycle_ok(m, cyc));
                                assert forall|j: int| 0 <= j < tv.accepted.len() implies
                                    cyc.contains_spec((#[trigger] tv.accepted[j]).1) by {}
                                lemma_ts_admit_safe(tv.requests, 0, tv.accepted, cyc, info, m);
                            }
                        }
                    },
                    Option::None => {},
                }
            },
        }
    }
}

/// Submitting the same request twice is the same as submitting it once:
/// the second call returns the same verdict and leaves the state exactly
/// as the first call left it.
pub proof fn lemma_submit_idempotent(v: SimView, req: Request)
    requires
        sim_wf(v),
        req.turn.parent < v.intersections.len(),
    ensures
        sim_submit_spec(sim_submit_spec(v, req).0, req).0 == sim_submit_spec(v, req).0,
        sim_submit_spec(sim_submit_spec(v, req).0, req).1 == sim_submit_spec(v, req).1,
{
    let k = req.turn.parent as int;
    let p = v.intersections[k];
    let once = sim_submit_spec(v, req);
    let twice = sim_submit_spec(once.0, req);
    assert(once.0.intersections[k] == policy_submit_spec(p, req).0);
    let p1 = policy_submit_spec(p, req).0;
    assert(policy_accepted(p1) == policy_accepted(p));
    assert(policy_wf_at(p, k));
    lemma_submit_preserves_wf(p, req, k);
    if acc_has(policy_accepted(p), req.agent) {
        assert(p1 == p);
        assert(once.0.intersections =~= v.intersections);
    } else {
        match p {
            PolicyView::StopSign(sv) => {
                if wait_agent_find(sv.waiting, req.agent) is Some {
                    assert(p1 == p);
                    assert(once.0.intersections =~= v.intersections);
                } else if reqs_agent_find(sv.approaching, req.agent) is Some {
                    assert(p1 == p);
                    assert(once.0.intersections =~= v.intersections);
                } else {
                    // The request entered approaching; the second call finds
                    // it there, for the same turn, and changes nothing.
                    let sv1 = p1->StopSign_0;
                    assert(sv1.waiting == sv.waiting);
                    lemma_reqset_insert_sorted(sv.approaching, req);
                    lemma_reqset_insert_membership(sv.approaching, req, req);
                    let i = choose|i: int|
                        0 <= i < sv1.approaching.len() && sv1.approaching[i] == req;
                    lemma_reqs_agent_find_witness(sv1.approaching, req.agent, i);
                    assert(policy_submit_spec(p1, req).0 == p1);
                }
            },
            PolicyView::TrafficSignal(tv) => {
                if reqs_agent_find(tv.requests, req.agent) is Some {
                    assert(p1 == p);
                    assert(once.0.intersections =~= v.intersections);
                } else {
                    let tv1 = p1->TrafficSignal_0;
                    lemma_reqset_insert_sorted(tv.requests, req);
                    lemma_reqset_insert_membership(tv.requests, req, req);
                    let i = choose|i: int| 0 <= i < tv1.requests.len() && tv1.requests[i] == req;
                    lemma_reqs_agent_find_witness(tv1.requests, req.agent, i);
                    assert(policy_submit_spec(p1, req).0 == p1);
                }
            },
        }
    }
    assert(twice.0.intersections =~= once.0.intersections);
    assert(twice.0 =~= once.0);
}

/// Two requests of different agents (or for different intersections)
/// submitted before a step may arrive in either order: the state after
/// both submissions is the same either way. Since one tick is a function
/// of the state alone, the post-step states agree too. Two requests of
/// one agent for different turns at one intersection are excluded: there
/// the second submission is the mid-flight change-of-turn error, so the
/// surviving request depends on the order.
pub proof fn lemma_submit_commutes(v: SimView, r1: Request, r2: Request)
    requires
        sim_wf(v),
        r1 != r2,
        r1.agent != r2.agent || r1.turn.parent != r2.turn.parent,
        r1.turn.parent < v.intersections.len(),
        r2.turn.parent < v.intersections.len(),
    ensures
        sim_submit_spec(sim_submit_spec(v, r1).0, r2).0 == sim_submit_spec(
            sim_submit_spec(v, r2).0,
            r1,
        ).0,
{
    let k1 = r1.turn.parent as int;
    let k2 = r2.turn.parent as int;
    let a1 = sim_submit_spec(v, r1).0;
    let a12 = sim_submit_spec(a1, r2).0;
    let b2 = sim_submit_spec(v, r2).0;
    let b21 = sim_submit_spec(b2, r1).0;
    if k1 != k2 {
        assert(a1.intersections[k2] == v.intersections[k2]);
        assert(b2.intersections[k1] == v.intersections[k1]);
        assert(a12.intersections =~= b21.intersections);
        assert(a12 =~= b21);
    } else {
        let p = v.intersections[k1];
        assert(policy_wf_at(p, k1));
        let p1 = policy_submit_spec(p, r1).0;
        let p12 = policy_submit_spec(p1, r2).0;
        let p2 = policy_submit_spec(p, r2).0;
        let p21 = policy_submit_spec(p2, r1).0;
        assert(policy_accepted(p1) == policy_accepted(p));
        assert(policy_accepted(p2) == policy_accepted(p));
        lemma_policy_submit_commutes(p, r1, r2, k1);
        assert(a12.intersections =~= b21.intersections);
        assert(a12 =~= b21);
    }
}

/// Submission to one policy commutes for requests of distinct agents.
proof fn lemma_policy_submit_commutes(p: PolicyView, r1: Request, r2: Request, k: int)
    requires
        policy_wf_at(p, k),
        r1.agent != r2.agent,
    ensures
        policy_submit_spec(policy_submit_spec(p, r1).0, r2).0 == policy_submit_spec(
            policy_submit_spec(p, r2).0,
            r1,
        ).0,
{
    let p1 = policy_submit_spec(p, r1).0;
    let p12 = policy_submit_spec(p1, r2).0;
    let p2 = policy_submit_spec(p, r2).0;
    let p21 = policy_submit_spec(p2, r1).0;
    assert(policy_accepted(p1) == policy_accepted(p));
    assert(policy_accepted(p2) == policy_accepted(p));
    match p {
        PolicyView::StopSign(sv) => {
            // Whether each request enqueues depends only on its own agent's
            // standing, which the other request's submission cannot change.
            let ins1 = !acc_has(sv.accepted, r1.agent) && wait_agent_find(sv.waiting, r1.agent)
                is None && reqs_agent_find(sv.approaching, r1.agent) is None;
            let ins2 = !acc_has(sv.accepted, r2.agent) && wait_agent_find(sv.waiting, r2.agent)
                is None && reqs_agent_find(sv.approaching, r2.agent) is None;
            if ins1 {
                lemma_reqs_agent_find_stable(sv.approaching, r1, r2.agent);
            }
            if ins2 {
                lemma_reqs_agent_find_stable(sv.approaching, r2, r1.agent);
            }
            if ins1 && ins2 {
                lemma_reqset_insert_sorted(sv.approaching, r1);
                lemma_reqset_insert_sorted(sv.approaching, r2);
                lemma_reqset_insert_sorted(reqset_insert(sv.approaching, r1), r2);
                lemma_reqset_insert_sorted(reqset_insert(sv.approaching, r2), r1);
                assert forall|x: Request|
                    reqset_insert(reqset_insert(sv.approaching, r1), r2).contains(x)
                        <==> reqset_insert(reqset_insert(sv.approaching, r2), r1).contains(
                        x,
                    ) by {
                    lemma_reqset_insert_membership(sv.approaching, r1, x);
                    lemma_reqset_insert_membership(sv.approaching, r2, x);
                    lemma_reqset_insert_membership(reqset_insert(sv.approaching, r1), r2, x);
                    lemma_reqset_insert_membership(reqset_insert(sv.approaching, r2), r1, x);
                }
                lemma_sorted_reqs_canonical(
                    reqset_insert(reqset_insert(sv.approaching, r1), r2),
                    reqset_insert(reqset_insert(sv.approaching, r2), r1),
                );
                assert(p12 =~= p21);
            } else if ins1 {
                assert(p2 == p);
                assert(p12 == p1 && p21 == p1);
            } else if ins2 {
                assert(p1 == p);
                assert(p12 == p2 && p21 == p2);
            } else {
                assert(p1 == p && p2 == p);
            }
        },
        PolicyView::TrafficSignal(tv) => {
            let ins1 = !acc_has(tv.accepted, r1.agent) && reqs_agent_find(tv.requests, r1.agent)
                is None;
            let ins2 = !acc_has(tv.accepted, r2.agent) && reqs_agent_find(tv.requests, r2.agent)
                is None;
            if ins1 {
                lemma_reqs_agent_find_stable(tv.requests, r1, r2.agent);
            }
            if ins2 {
                lemma_reqs_agent_find_stable(tv.requests, r2, r1.agent);
            }
            if ins1 && ins2 {
                lemma_reqset_insert_sorted(tv.requests, r1);
                lemma_reqset_insert_sorted(tv.requests, r2);
                lemma_reqset_insert_sorted(reqset_insert(tv.requests, r1), r2);
                lemma_reqset_insert_sorted(reqset_insert(tv.requests, r2), r1);
                assert forall|x: Request|
                    reqset_insert(reqset_insert(tv.requests, r1), r2).contains(x)
                        <==> reqset_insert(reqset_insert(tv.requests, r2), r1).contains(x) by {
                    lemma_reqset_insert_membership(tv.requests, r1, x);
                    lemma_reqset_insert_membership(tv.requests, r2, x);
                    lemma_reqset_insert_membership(reqset_insert(tv.requests, r1), r2, x);
                    lemma_reqset_insert_membership(reqset_insert(tv.requests, r2), r1, x);
                }
                lemma_sorted_reqs_canonical(
                    reqset_insert(reqset_insert(tv.requests, r1), r2),
                    reqset_insert(reqset_insert(tv.requests, r2), r1),
                );
                assert(p12 =~= p21);
            } else if ins1 {
                assert(p2 == p);
            } else if ins2 {
                assert(p1 == p);
            } else {
            }
        },
    }
}

/// A grant survives any further submission, and survives the tick: the
/// policies only ever add to the accepted maps. Only `on_exit` removes a
/// grant.
pub proof fn lemma_grant_persists_step(
    v: SimView,
    req: Request,
    time: Tick,
    m: RoadMap,
    c: ControlMap,
    info: AgentInfo,
)
    requires
        sim_wf(v),
        sim_times_le(v, time),
        req.turn.parent < v.intersections.len(),
        granted_spec(v, req),
    ensures
        ({
            let k = req.turn.parent as int;
            let np = policy_step_spec(v.intersections[k], time, m, c, info).0;
            acc_has(policy_accepted(np), req.agent) && acc_at(policy_accepted(np), req.agent)
                == req.turn
        }),
{
    let k = req.turn.parent as int;
    let p = v.intersections[k];
    assert(policy_wf_at(p, k));
    let acc = policy_accepted(p);
    let i = choose|i: int| 0 <= i < acc.len() && acc[i].0 == req.agent;
    lemma_acc_at(acc, i);
    assert(acc[i] == (req.agent, req.turn));
    assert(acc.contains(acc[i]));
    let np = policy_step_spec(p, time, m, c, info).0;
    let nacc = policy_accepted(np);
    match p {
        PolicyView::StopSign(sv) => {
            match ss_find(c.stop_signs@, sv.id) {
                Option::Some(ctl) => {
                    assert(policy_times_le(v.intersections[k], time));
                    lemma_ss_promote_agents(sv.approaching, sv.waiting, sv.accepted, ctl, info, time);
                    let pr = ss_promote_from(sv.approaching, 0, sv.waiting, ctl, info, time);
                    lemma_ss_admit_grows(
                        pr.1,
                        0,
                        sv.accepted,
                        m,
                        ctl,
                        time,
                        (req.agent, req.turn),
                    );
                    lemma_ss_admit_sorted(pr.1, 0, sv.accepted, m, ctl, time);
                    let j = choose|j: int| 0 <= j < nacc.len() && nacc[j] == (req.agent, req.turn);
                    lemma_acc_at(nacc, j);
                },
                Option::None => {},
            }
        },
        PolicyView::TrafficSignal(tv) => {
            match ts_find(c.traffic_signals@, tv.id) {
                Option::Some(ctl) => {
                    if ctl.wf() {
                        let cyc = cycle_of(ctl, time);
                        if ts_frozen(tv, cyc) {
                        } else {
                            crate::policy::lemma_ts_admit_grows(
                                tv.requests,
                                0,
                                tv.accepted,
                                cyc,
                                info,
                                (req.agent, req.turn),
                            );
                            crate::policy::lemma_ts_admit_sorted(
                                tv.requests,
                                0,
                                tv.accepted,
                                cyc,
                                info,
                            );
                            let j = choose|j: int|
                                0 <= j < nacc.len() && nacc[j] == (req.agent, req.turn);
                            lemma_acc_at(nacc, j);
                        }
                    }
                },
                Option::None => {},
            }
        },
    }
}

/// Any `Stop`-priority request admitted by a stop-sign tick has dwelt at
/// least the full stop-sign delay, measured from the tick at which it was
/// promoted to waiting.
pub proof fn lemma_stop_dwell(
    v: StopSignView,
    m: RoadMap,
    ss: ControlStopSign,
    info: AgentInfo,
    time: Tick,
    r: Request,
)
    requires
        ss_wf(v),
        ss_times_le(v, time),
        ss_step_spec(v, m, ss, info, time).1.contains(r),
        priority_of(ss.priorities@, r.turn) == TurnPriority::Stop,
    ensures
        ({
            let w1 = ss_promote_from(v.approaching, 0, v.waiting, ss, info, time).1;
            wait_has(w1, r) && time - wait_at(w1, r) >= WAIT_AT_STOP_SIGN
        }),
{
    let pr = ss_promote_from(v.approaching, 0, v.waiting, ss, info, time);
    let w1 = pr.1;
    assert forall|k: int| 0 <= k < v.approaching.len() implies !wait_has(
        v.waiting,
        #[trigger] v.approaching[k],
    ) by {
        if wait_has(v.waiting, v.approaching[k]) {
            let j = choose|j: int| 0 <= j < v.waiting.len() && v.waiting[j].0 == v.approaching[k];
        }
    }
    lemma_ss_promote_sorted(v.approaching, 0, v.waiting, ss, info, time);
    lemma_ss_admit_admitted(w1, 0, v.accepted, m, ss, time, r);
    let j = choose|j: int| 0 <= j < w1.len() && (#[trigger] w1[j]).0 == r;
    lemma_ss_admit_dwell(w1, 0, v.accepted, m, ss, time, j);
    lemma_wait_at(w1, j);
}

/// One tick is a function of the state and the inputs alone: equal states
/// stepped with equal inputs give equal policies and equal event streams.
/// Together with the exact contracts of every operation this makes whole
/// runs reproducible.
pub proof fn lemma_step_deterministic(
    v1: SimView,
    v2: SimView,
    time: Tick,
    m: RoadMap,
    c: ControlMap,
    info: AgentInfo,
)
    requires
        v1 == v2,
    ensures
        forall|k: int|
            0 <= k < v1.intersections.len() ==> policy_step_spec(
                #[trigger] v1.intersections[k],
                time,
                m,
                c,
                info,
            ) == policy_step_spec(v2.intersections[k], time, m, c, info),
        sim_step_admitted(v1.intersections, 0, time, m, c, info) == sim_step_admitted(
            v2.intersections,
            0,
            time,
            m,
            c,
            info,
        ),
{
}

/// Leaving the intersection removes exactly the leaving agent's grant:
/// safety still holds, the agent holds nothing here any more, and every
/// other agent's grant is untouched.
pub proof fn lemma_on_exit_effect(m: RoadMap, v: SimView, req: Request)
    requires
        sim_wf(v),
        req.turn.parent < v.intersections.len(),
        sim_safe(m, v),
    ensures
        ({
            let k = req.turn.parent as int;
            let out = SimView {
                intersections: v.intersections.update(
                    k,
                    crate::sim::policy_on_exit_spec(v.intersections[k], req.agent),
                ),
                debug: v.debug,
            };
            &&& sim_safe(m, out)
            &&& !acc_has(policy_accepted(out.intersections[k]), req.agent)
            &&& forall|r2: Request|
                r2.turn.parent < v.intersections.len() && r2.agent != req.agent ==> (
                #[trigger] granted_spec(out, r2) == granted_spec(v, r2))
        }),
{
    let k = req.turn.parent as int;
    let p = v.intersections[k];
    assert(policy_wf_at(p, k));
    let oldacc = policy_accepted(p);
    let newacc = crate::sorted::acc_remove(oldacc, req.agent);
    let out = SimView {
        intersections: v.intersections.update(
            k,
            crate::sim::policy_on_exit_spec(v.intersections[k], req.agent),
        ),
        debug: v.debug,
    };
    assert(policy_accepted(out.intersections[k]) == newacc);
    crate::sorted::lemma_acc_remove_sorted(oldacc, req.agent);
    crate::sorted::lemma_acc_remove_has(oldacc, req.agent, req.agent);
    assert forall|a: int, b: int|
        0 <= a < newacc.len() && 0 <= b < newacc.len() && a != b implies !m.conflicts_spec(
        (#[trigger] newacc[a]).1,
        (#[trigger] newacc[b]).1,
    ) by {
        assert(newacc.contains(newacc[a]));
        assert(newacc.contains(newacc[b]));
        crate::sorted::lemma_acc_remove_membership(oldacc, req.agent, newacc[a]);
        crate::sorted::lemma_acc_remove_membership(oldacc, req.agent, newacc[b]);
        let ka = choose|i: int| 0 <= i < oldacc.len() && oldacc[i] == newacc[a];
        let kb = choose|i: int| 0 <= i < oldacc.len() && oldacc[i] == newacc[b];
        if ka == kb {
            assert(newacc[a] == newacc[b]);
            assert(crate::types::agent_lt(newacc[a].0, newacc[b].0) || crate::types::agent_lt(
                newacc[b].0,
                newacc[a].0,
            ));
        } else {
            assert(acc_ok(m, oldacc));
        }
    }
    assert forall|j: int| 0 <= j < out.intersections.len() implies acc_ok(
        m,
        policy_accepted(#[trigger] out.intersections[j]),
    ) by {
        if j != k {
            assert(out.intersections[j] == v.intersections[j]);
        }
        assert(acc_ok(m, policy_accepted(v.intersections[j])));
    }
    assert forall|r2: Request|
        r2.turn.parent < v.intersections.len() && r2.agent != req.agent implies (
    #[trigger] granted_spec(out, r2) == granted_spec(v, r2)) by {
        let k2 = r2.turn.parent as int;
        if k2 != k {
            assert(out.intersections[k2] == v.intersections[k2]);
        } else {
            crate::sorted::lemma_acc_remove_has(oldacc, req.agent, r2.agent);
            if acc_has(oldacc, r2.agent) {
                crate::sorted::lemma_acc_remove_at_val(oldacc, req.agent, r2.agent);
            }
        }
    }
}

/// In a tick whose active phase no accepted agent has overrun, a pending
/// signal request is admitted exactly when its turn is green in that phase
/// and its agent leads its lane; every other request is retained for the
/// next tick.
pub proof fn lemma_signal_admission_iff(
    v: TrafficSignalView,
    tsp: crate::world::ControlTrafficSignal,
    info: AgentInfo,
    time: Tick,
    j: int,
)
    requires
        ts_wf(v),
        tsp.wf(),
        !ts_frozen(v, cycle_of(tsp, time)),
        0 <= j < v.requests.len(),
    ensures
        ts_step_spec(v, tsp, info, time).1.contains(v.requests[j]) <==> ts_admit_cond(
            cycle_of(tsp, time),
            info,
            v.accepted,
            v.requests[j],
        ),
        ts_step_spec(v, tsp, info, time).0.requests.contains(v.requests[j]) <==> !ts_admit_cond(
            cycle_of(tsp, time),
            info,
            v.accepted,
            v.requests[j],
        ),
{
    lemma_ts_admit_iff(v.requests, 0, v.accepted, cycle_of(tsp, time), info, j);
}

/// A waiting entry of a stop-sign tick (already waiting or promoted this
/// tick) is admitted exactly when, visiting the waiting snapshot in
/// request order, its turn clears the conflict check against everything
/// accepted so far - same-pass admissions included - no conflicting
/// waiting request of strictly higher priority exists, and a `Stop` turn
/// has dwelt the full delay. Every other entry stays waiting with its
/// timestamp unchanged.
pub proof fn lemma_stop_sign_admission_iff(
    v: StopSignView,
    m: RoadMap,
    ss: ControlStopSign,
    info: AgentInfo,
    time: Tick,
    j: int,
)
    requires
        ss_wf(v),
        ss_times_le(v, time),
        0 <= j < ss_promote_from(v.approaching, 0, v.waiting, ss, info, time).1.len(),
    ensures
        ({
            let w1 = ss_promote_from(v.approaching, 0, v.waiting, ss, info, time).1;
            let res = ss_step_spec(v, m, ss, info, time);
            &&& (res.1.contains(w1[j].0) <==> admit_cond(
                m,
                ss,
                w1,
                ss_acc_before(w1, 0, j, v.accepted, m, ss, time),
                time,
                w1[j],
            ))
            &&& (res.0.waiting.contains(w1[j]) <==> !res.1.contains(w1[j].0))
        }),
{
    let w1 = ss_promote_from(v.approaching, 0, v.waiting, ss, info, time).1;
    let res = ss_step_spec(v, m, ss, info, time);
    assert forall|k: int| 0 <= k < v.approaching.len() implies !wait_has(
        v.waiting,
        #[trigger] v.approaching[k],
    ) by {
        if wait_has(v.waiting, v.approaching[k]) {
            let q = choose|q: int| 0 <= q < v.waiting.len() && v.waiting[q].0 == v.approaching[k];
        }
    }
    lemma_ss_promote_sorted(v.approaching, 0, v.waiting, ss, info, time);
    lemma_ss_admit_iff(w1, 0, v.accepted, m, ss, time, j);
    lemma_keep_unadmitted_mem(w1, res.1, w1[j]);
    assert(w1.contains(w1[j]));
    if res.1.contains(w1[j].0) {
    }
}

} // verus!
