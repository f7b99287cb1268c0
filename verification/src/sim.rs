//! The top-level simulation state: one policy per intersection, stepped in
//! ascending id order every tick. Every operation's effect is stated as a
//! spec-level function of the old state, so identical runs produce identical
//! states.

use vstd::prelude::*;

use crate::policy::{
    events_of, policy_accepted, policy_times_le, policy_wf_at, ss_fresh, ss_step_spec, ss_wf,
    ss_times_le, ts_fresh, ts_step_spec, ts_wf, IntersectionPolicy, PolicyView, StopSign,
    StopSignView, TrafficSignal, TrafficSignalView,
};
use crate::sorted::{
    acc_find_vec, acc_has, acc_at, acc_remove, acc_remove_vec, lemma_acc_remove_membership,
    lemma_reqs_agent_find_none, lemma_reqset_insert_membership, lemma_wait_agent_find_none,
    reqs_agent_find, reqs_agent_find_vec, reqset_insert, reqset_insert_vec, sorted_acc,
    wait_agent_find, wait_agent_find_vec,
};
use crate::types::{AgentID, Event, InvariantViolated, Request, Tick};
use crate::world::{ss_find, ts_find, AgentInfo, ControlMap, RoadMap};

verus! {

/// Mathematical state of the whole simulation core.
#[verifier::ext_equal]
pub ghost struct SimView {
    pub intersections: Seq<PolicyView>,
    pub debug: Option<usize>,
}

/// Well-formed simulation state: the policy of index `k` carries id `k` and
/// is itself well-formed, and the debug target, if any, is a real
/// intersection.
pub open spec fn sim_wf(v: SimView) -> bool {
    &&& forall|k: int|
        0 <= k < v.intersections.len() ==> policy_wf_at(#[trigger] v.intersections[k], k)
    &&& match v.debug {
        Option::Some(d) => d < v.intersections.len(),
        Option::None => true,
    }
}

/// Every stored waiting timestamp is at or before `time`.
pub open spec fn sim_times_le(v: SimView, time: Tick) -> bool {
    forall|k: int|
        0 <= k < v.intersections.len() ==> policy_times_le(#[trigger] v.intersections[k], time)
}

/// Whether the intersection of `req.turn` has granted exactly this request.
pub open spec fn granted_spec(v: SimView, req: Request) -> bool {
    let acc = policy_accepted(v.intersections[req.turn.parent as int]);
    acc_has(acc, req.agent) && acc_at(acc, req.agent) == req.turn
}

/// What submitting `req` does to one policy. An agent that already holds a
/// grant or a pending request for the same turn is a silent no-op; one that
/// holds a grant or a pending request for a different turn gets
/// `InvariantViolated` (it must not change its mind mid-flight); otherwise
/// the request starts approaching. Nothing is ever granted here.
pub open spec fn policy_submit_spec(p: PolicyView, req: Request) -> (
    PolicyView,
    Result<(), InvariantViolated>,
) {
    let acc = policy_accepted(p);
    if acc_has(acc, req.agent) {
        if acc_at(acc, req.agent) == req.turn {
            (p, Result::Ok(()))
        } else {
            (p, Result::Err(InvariantViolated::ChangedTurn(req, acc_at(acc, req.agent))))
        }
    } else {
        match p {
            PolicyView::StopSign(sv) => match wait_agent_find(sv.waiting, req.agent) {
                Option::Some(t) => if t == req.turn {
                    (p, Result::Ok(()))
                } else {
                    (p, Result::Err(InvariantViolated::ChangedTurn(req, t)))
                },
                Option::None => match reqs_agent_find(sv.approaching, req.agent) {
                    Option::Some(t) => if t == req.turn {
                        (p, Result::Ok(()))
                    } else {
                        (p, Result::Err(InvariantViolated::ChangedTurn(req, t)))
                    },
                    Option::None => (
                        PolicyView::StopSign(
                            StopSignView {
                                id: sv.id,
                                approaching: reqset_insert(sv.approaching, req),
                                waiting: sv.waiting,
                                accepted: sv.accepted,
                                debug: sv.debug,
                            },
                        ),
                        Result::Ok(()),
                    ),
                },
            },
            PolicyView::TrafficSignal(tv) => match reqs_agent_find(tv.requests, req.agent) {
                Option::Some(t) => if t == req.turn {
                    (p, Result::Ok(()))
                } else {
                    (p, Result::Err(InvariantViolated::ChangedTurn(req, t)))
                },
                Option::None => (
                    PolicyView::TrafficSignal(
                        TrafficSignalView {
                            id: tv.id,
                            requests: reqset_insert(tv.requests, req),
                            accepted: tv.accepted,
                            debug: tv.debug,
                        },
                    ),
                    Result::Ok(()),
                ),
            },
        }
    }
}

/// What submitting `req` does to the whole state: only the policy of the
/// request's intersection changes.
pub open spec fn sim_submit_spec(v: SimView, req: Request) -> (
    SimView,
    Result<(), InvariantViolated>,
) {
    let k = req.turn.parent as int;
    let pr = policy_submit_spec(v.intersections[k], req);
    (SimView { intersections: v.intersections.update(k, pr.0), debug: v.debug }, pr.1)
}

/// What `on_exit` does to one policy: the agent's grant is removed.
pub open spec fn policy_on_exit_spec(p: PolicyView, agent: AgentID) -> PolicyView {
    match p {
        PolicyView::StopSign(sv) => PolicyView::StopSign(
            StopSignView {
                id: sv.id,
                approaching: sv.approaching,
                waiting: sv.waiting,
                accepted: acc_remove(sv.accepted, agent),
                debug: sv.debug,
            },
        ),
        PolicyView::TrafficSignal(tv) => PolicyView::TrafficSignal(
            TrafficSignalView {
                id: tv.id,
                requests: tv.requests,
                accepted: acc_remove(tv.accepted, agent),
                debug: tv.debug,
            },
        ),
    }
}

/// What one tick does to one policy, looked up in the control plans. An
/// intersection without a usable plan is left untouched.
pub open spec fn policy_step_spec(
    p: PolicyView,
    time: Tick,
    m: RoadMap,
    c: ControlMap,
    info: AgentInfo,
) -> (PolicyView, Seq<Request>) {
    match p {
        PolicyView::StopSign(sv) => match ss_find(c.stop_signs@, sv.id) {
            Option::Some(ctl) => {
                let r = ss_step_spec(sv, m, ctl, info, time);
                (PolicyView::StopSign(r.0), r.1)
            },
            Option::None => (p, Seq::empty()),
        },
        PolicyView::TrafficSignal(tv) => match ts_find(c.traffic_signals@, tv.id) {
            Option::Some(ctl) => if ctl.wf() {
                let r = ts_step_spec(tv, ctl, info, time);
                (PolicyView::TrafficSignal(r.0), r.1)
            } else {
                (p, Seq::empty())
            },
            Option::None => (p, Seq::empty()),
        },
    }
}

/// Every policy has a control plan: stop-sign policies a stop-sign plan,
/// signal policies a signal plan (usable by `ControlMap::wf`). `step`
/// demands this, as the plans are the map's static configuration.
pub open spec fn control_covers(c: ControlMap, v: SimView) -> bool {
    forall|k: int|
        0 <= k < v.intersections.len() ==> match #[trigger] v.intersections[k] {
            PolicyView::StopSign(sv) => ss_find(c.stop_signs@, sv.id) is Some,
            PolicyView::TrafficSignal(tv) => ts_find(c.traffic_signals@, tv.id) is Some,
        }
}

/// The requests admitted from policy `i` on, in intersection order.
pub open spec fn sim_step_admitted(
    ps: Seq<PolicyView>,
    i: int,
    time: Tick,
    m: RoadMap,
    c: ControlMap,
    info: AgentInfo,
) -> Seq<Request>
    decreases ps.len() - i,
{
    if i < 0 || i >= ps.len() {
        Seq::empty()
    } else {
        policy_step_spec(ps[i], time, m, c, info).1 + sim_step_admitted(
            ps,
            i + 1,
            time,
            m,
            c,
            info,
        )
    }
}

/// The simulation core: one policy per intersection, in id order, plus the
/// optional diagnostic target.
#[derive(PartialEq, Eq, Debug)]
pub struct IntersectionSimState {
    pub intersections: Vec<IntersectionPolicy>,
    pub debug: Option<usize>,
}

impl View for IntersectionSimState {
    type V = SimView;

    open spec fn view(&self) -> SimView {
        SimView {
            intersections: self.intersections@.map_values(|p: IntersectionPolicy| p@),
            debug: self.debug,
        }
    }
}

impl IntersectionSimState {
    /// Builds one policy per intersection, in map order; the intersection's
    /// flag picks the variant.
    pub fn new(map: &RoadMap) -> (s: IntersectionSimState)
        requires
            map.wf(),
        ensures
            s@.intersections.len() == map.intersections@.len(),
            forall|k: int|
                0 <= k < map.intersections@.len() ==> s@.intersections[k] == (
                if (#[trigger] map.intersections@[k]).has_traffic_signal {
                    PolicyView::TrafficSignal(ts_fresh(map.intersections@[k].id))
                } else {
                    PolicyView::StopSign(ss_fresh(map.intersections@[k].id))
                }),
            s@.debug is None,
            sim_wf(s@),
            forall|t: Tick| #[trigger] sim_times_le(s@, t),
    {
        let n = map.intersections.len();
        let mut intersections: Vec<IntersectionPolicy> = Vec::new();
        let mut k: usize = 0;
        while k < n
            invariant
                k <= n,
                n == map.intersections@.len(),
                map.wf(),
                intersections@.len() == k,
                forall|j: int|
                    0 <= j < k ==> (#[trigger] intersections@[j])@ == (
                    if map.intersections@[j].has_traffic_signal {
                        PolicyView::TrafficSignal(ts_fresh(map.intersections@[j].id))
                    } else {
                        PolicyView::StopSign(ss_fresh(map.intersections@[j].id))
                    }),
            decreases n - k,
        {
            let inter = &map.intersections[k];
            if inter.has_traffic_signal {
                intersections.push(
                    IntersectionPolicy::TrafficSignalPolicy(TrafficSignal::new(inter.id)),
                );
            } else {
                intersections.push(IntersectionPolicy::StopSignPolicy(StopSign::new(inter.id)));
            }
            k += 1;
        }
        let s = IntersectionSimState { intersections, debug: Option::None };
        proof {
            assert forall|j: int| 0 <= j < map.intersections@.len() implies s@.intersections[j]
                == (if (#[trigger] map.intersections@[j]).has_traffic_signal {
                PolicyView::TrafficSignal(ts_fresh(map.intersections@[j].id))
            } else {
                PolicyView::StopSign(ss_fresh(map.intersections@[j].id))
            }) by {
                assert(s@.intersections[j] == intersections@[j]@);
            }
            assert forall|j: int| 0 <= j < s@.intersections.len() implies policy_wf_at(
                #[trigger] s@.intersections[j],
                j,
            ) by {
                assert(map.intersections@[j].id == j);
            }
            assert forall|t: Tick| #[trigger] sim_times_le(s@, t) by {
                assert forall|j: int| 0 <= j < s@.intersections.len() implies policy_times_le(
                    #[trigger] s@.intersections[j],
                    t,
                ) by {
                    assert(map.intersections@[j].id == j);
                }
            }
        }
        s
    }

    /// Whether this exact request has been granted. Pure query.
    pub fn request_granted(&self, req: Request) -> (r: bool)
        requires
            sim_wf(self@),
            req.turn.parent < self@.intersections.len(),
        ensures
            r == granted_spec(self@, req),
    {
        let i = &self.intersections[req.turn.parent];
        proof {
            assert(i@ == self@.intersections[req.turn.parent as int]);
            assert(policy_wf_at(i@, req.turn.parent as int));
            match i@ {
                PolicyView::StopSign(sv) => assert(sorted_acc(policy_accepted(i@))),
                PolicyView::TrafficSignal(tv) => assert(sorted_acc(policy_accepted(i@))),
            }
        }
        let acc = i.accepted();
        match acc_find_vec(acc, req.agent) {
            Option::Some(t) => t == req.turn,
            Option::None => false,
        }
    }

    /// Enqueues `req` for later consideration; never grants it. Idempotent,
    /// so speculative lookahead may submit the same request repeatedly and
    /// in any order. An agent that already holds a grant or a pending
    /// request for a different turn gets `InvariantViolated`: each agent
    /// asks for one turn at a time, which keeps the pending and accepted
    /// containers disjoint by agent.
    pub fn submit_request(&mut self, req: Request) -> (r: Result<(), InvariantViolated>)
        requires
            sim_wf(old(self)@),
            req.turn.parent < old(self)@.intersections.len(),
        ensures
            final(self)@ == sim_submit_spec(old(self)@, req).0,
            r == sim_submit_spec(old(self)@, req).1,
            sim_wf(final(self)@),
            forall|t: Tick|
                #[trigger] sim_times_le(old(self)@, t) ==> sim_times_le(final(self)@, t),
    {
        let ghost v0 = self@;
        let ghost k = req.turn.parent as int;
        let kx = req.turn.parent;
        let p = &mut self.intersections[kx];
        proof {
            assert(p@ == v0.intersections[k]);
            assert(policy_wf_at(p@, k));
        }
        let res: Result<(), InvariantViolated> = match p {
            IntersectionPolicy::StopSignPolicy(sp) => {
                proof {
                    assert(ss_wf(sp@));
                }
                match acc_find_vec(&sp.accepted, req.agent) {
                    Option::Some(t) => {
                        if t == req.turn {
                            Result::Ok(())
                        } else {
                            Result::Err(InvariantViolated::ChangedTurn(req, t))
                        }
                    },
                    Option::None => {
                        match wait_agent_find_vec(&sp.waiting, req.agent) {
                            Option::Some(t) => {
                                if t == req.turn {
                                    Result::Ok(())
                                } else {
                                    Result::Err(InvariantViolated::ChangedTurn(req, t))
                                }
                            },
                            Option::None => {
                                match reqs_agent_find_vec(&sp.approaching, req.agent) {
                                    Option::Some(t) => {
                                        if t == req.turn {
                                            Result::Ok(())
                                        } else {
                                            Result::Err(InvariantViolated::ChangedTurn(req, t))
                                        }
                                    },
                                    Option::None => {
                                        reqset_insert_vec(&mut sp.approaching, req);
                                        Result::Ok(())
                                    },
                                }
                            },
                        }
                    },
                }
            },
            IntersectionPolicy::TrafficSignalPolicy(tp) => {
                proof {
                    assert(ts_wf(tp@));
                }
                match acc_find_vec(&tp.accepted, req.agent) {
                    Option::Some(t) => {
                        if t == req.turn {
                            Result::Ok(())
                        } else {
                            Result::Err(InvariantViolated::ChangedTurn(req, t))
                        }
                    },
                    Option::None => {
                        match reqs_agent_find_vec(&tp.requests, req.agent) {
                            Option::Some(t) => {
                                if t == req.turn {
                                    Result::Ok(())
                                } else {
                                    Result::Err(InvariantViolated::ChangedTurn(req, t))
                                }
                            },
                            Option::None => {
                                reqset_insert_vec(&mut tp.requests, req);
                                Result::Ok(())
                            },
                        }
                    },
                }
            },
        };
        proof {
            let spec_out = sim_submit_spec(v0, req);
            assert(self@.intersections =~= v0.intersections.update(k, spec_out.0.intersections[k]));
            assert(self@ =~= spec_out.0);
            assert forall|j: int| 0 <= j < self@.intersections.len() implies policy_wf_at(
                #[trigger] self@.intersections[j],
                j,
            ) by {
                if j != k {
                    assert(self@.intersections[j] == v0.intersections[j]);
                } else {
                    lemma_submit_preserves_wf(v0.intersections[k], req, k);
                }
            }
            assert forall|t: Tick|
                #[trigger] sim_times_le(v0, t) implies sim_times_le(self@, t) by {
                assert forall|j: int| 0 <= j < self@.intersections.len() implies policy_times_le(
                    #[trigger] self@.intersections[j],
                    t,
                ) by {
                    assert(policy_times_le(v0.intersections[j], t));
                }
            }
        }
        res
    }

    /// Checks that the entering agent was in fact granted a turn here.
    pub fn on_enter(&self, req: Request) -> (r: Result<(), InvariantViolated>)
        requires
            sim_wf(self@),
            req.turn.parent < self@.intersections.len(),
        ensures
            r == (if acc_has(policy_accepted(self@.intersections[req.turn.parent as int]), req.agent) {
                Result::<(), InvariantViolated>::Ok(())
            } else {
                Result::<(), InvariantViolated>::Err(InvariantViolated::NotAccepted(req))
            }),
    {
        let i = &self.intersections[req.turn.parent];
        proof {
            assert(i@ == self@.intersections[req.turn.parent as int]);
            assert(policy_wf_at(i@, req.turn.parent as int));
            match i@ {
                PolicyView::StopSign(sv) => assert(sorted_acc(policy_accepted(i@))),
                PolicyView::TrafficSignal(tv) => assert(sorted_acc(policy_accepted(i@))),
            }
        }
        let acc = i.accepted();
        match acc_find_vec(acc, req.agent) {
            Option::Some(_) => Result::Ok(()),
            Option::None => Result::Err(InvariantViolated::NotAccepted(req)),
        }
    }

    /// Clears the agent's grant once it has left the intersection. The
    /// agent must have been granted a turn here.
    pub fn on_exit(&mut self, req: Request)
        requires
            sim_wf(old(self)@),
            req.turn.parent < old(self)@.intersections.len(),
            acc_has(
                policy_accepted(old(self)@.intersections[req.turn.parent as int]),
                req.agent,
            ),
        ensures
            final(self)@ == (SimView {
                intersections: old(self)@.intersections.update(
                    req.turn.parent as int,
                    policy_on_exit_spec(
                        old(self)@.intersections[req.turn.parent as int],
                        req.agent,
                    ),
                ),
                debug: old(self)@.debug,
            }),
            sim_wf(final(self)@),
            forall|t: Tick|
                #[trigger] sim_times_le(old(self)@, t) ==> sim_times_le(final(self)@, t),
    {
        let ghost v0 = self@;
        let ghost k = req.turn.parent as int;
        let kx = req.turn.parent;
        let p = &mut self.intersections[kx];
        proof {
            assert(p@ == v0.intersections[k]);
            assert(policy_wf_at(p@, k));
        }
        match p {
            IntersectionPolicy::StopSignPolicy(sp) => {
                proof {
                    assert(ss_wf(sp@));
                }
                acc_remove_vec(&mut sp.accepted, req.agent);
            },
            IntersectionPolicy::TrafficSignalPolicy(tp) => {
                proof {
                    assert(ts_wf(tp@));
                }
                acc_remove_vec(&mut tp.accepted, req.agent);
            },
        }
        proof {
            let target = SimView {
                intersections: v0.intersections.update(k, policy_on_exit_spec(
                    v0.intersections[k],
                    req.agent,
                )),
                debug: v0.debug,
            };
            assert(self@.intersections =~= target.intersections);
            assert(self@ =~= target);
            assert forall|j: int| 0 <= j < self@.intersections.len() implies policy_wf_at(
                #[trigger] self@.intersections[j],
                j,
            ) by {
                if j != k {
                    assert(self@.intersections[j] == v0.intersections[j]);
                } else {
                    lemma_on_exit_preserves_wf(v0.intersections[k], req.agent, k);
                }
            }
            assert forall|t: Tick|
                #[trigger] sim_times_le(v0, t) implies sim_times_le(self@, t) by {
                assert forall|j: int| 0 <= j < self@.intersections.len() implies policy_times_le(
                    #[trigger] self@.intersections[j],
                    t,
                ) by {
                    assert(policy_times_le(v0.intersections[j], t));
                }
            }
        }
    }
}

/// Submitting a request to a well-formed policy of index `k` keeps it
/// well-formed.
pub proof fn lemma_submit_preserves_wf(p: PolicyView, req: Request, k: int)
    requires
        policy_wf_at(p, k),
        req.turn.parent == k,
    ensures
        policy_wf_at(policy_submit_spec(p, req).0, k),
{
    let out = policy_submit_spec(p, req).0;
    let acc = policy_accepted(p);
    if acc_has(acc, req.agent) {
    } else {
        match p {
            PolicyView::StopSign(sv) => {
                lemma_wait_agent_find_none(sv.waiting, req.agent);
                lemma_reqs_agent_find_none(sv.approaching, req.agent);
                if wait_agent_find(sv.waiting, req.agent) is Some {
                } else if reqs_agent_find(sv.approaching, req.agent) is Some {
                } else {
                    // The request starts approaching; its agent is fresh in
                    // every container, so the agent discipline survives.
                    crate::sorted::lemma_reqset_insert_sorted(sv.approaching, req);
                    let na = reqset_insert(sv.approaching, req);
                    assert forall|i: int| 0 <= i < na.len() implies (#[trigger] na[i]).turn.parent
                        == sv.id && !acc_has(sv.accepted, na[i].agent) by {
                        assert(na.contains(na[i]));
                        lemma_reqset_insert_membership(sv.approaching, req, na[i]);
                        if sv.approaching.contains(na[i]) {
                            let j = choose|j: int|
                                0 <= j < sv.approaching.len() && sv.approaching[j] == na[i];
                        }
                    }
                    assert forall|a: int, b: int| 0 <= a < b < na.len() implies (
                    #[trigger] na[a]).agent != (#[trigger] na[b]).agent by {
                        let x = na[a];
                        let y = na[b];
                        assert(crate::types::req_lt(x, y));
                        assert(na.contains(x));
                        assert(na.contains(y));
                        lemma_reqset_insert_membership(sv.approaching, req, x);
                        lemma_reqset_insert_membership(sv.approaching, req, y);
                        if sv.approaching.contains(x) && sv.approaching.contains(y) {
                            let ja = choose|j: int|
                                0 <= j < sv.approaching.len() && sv.approaching[j] == x;
                            let jb = choose|j: int|
                                0 <= j < sv.approaching.len() && sv.approaching[j] == y;
                            assert(ja != jb);
                        } else if sv.approaching.contains(x) {
                            let ja = choose|j: int|
                                0 <= j < sv.approaching.len() && sv.approaching[j] == x;
                            assert(y == req);
                        } else if sv.approaching.contains(y) {
                            let jb = choose|j: int|
                                0 <= j < sv.approaching.len() && sv.approaching[j] == y;
                            assert(x == req);
                        }
                    }
                    assert forall|a: int, b: int|
                        0 <= a < na.len() && 0 <= b < sv.waiting.len() implies (
                    #[trigger] na[a]).agent != (#[trigger] sv.waiting[b]).0.agent by {
                        let x = na[a];
                        assert(na.contains(x));
                        lemma_reqset_insert_membership(sv.approaching, req, x);
                        if sv.approaching.contains(x) {
                            let j = choose|j: int|
                                0 <= j < sv.approaching.len() && sv.approaching[j] == x;
                        } else {
                            assert(x == req);
                        }
                    }
                }
            },
            PolicyView::TrafficSignal(tv) => {
                lemma_reqs_agent_find_none(tv.requests, req.agent);
                if reqs_agent_find(tv.requests, req.agent) is Some {
                } else {
                    crate::sorted::lemma_reqset_insert_sorted(tv.requests, req);
                    let na = reqset_insert(tv.requests, req);
                    assert forall|i: int| 0 <= i < na.len() implies (#[trigger] na[i]).turn.parent
                        == tv.id && !acc_has(tv.accepted, na[i].agent) by {
                        assert(na.contains(na[i]));
                        lemma_reqset_insert_membership(tv.requests, req, na[i]);
                        if tv.requests.contains(na[i]) {
                            let j = choose|j: int|
                                0 <= j < tv.requests.len() && tv.requests[j] == na[i];
                        }
                    }
                    assert forall|a: int, b: int| 0 <= a < b < na.len() implies (
                    #[trigger] na[a]).agent != (#[trigger] na[b]).agent by {
                        let x = na[a];
                        let y = na[b];
                        assert(crate::types::req_lt(x, y));
                        assert(na.contains(x));
                        assert(na.contains(y));
                        lemma_reqset_insert_membership(tv.requests, req, x);
                        lemma_reqset_insert_membership(tv.requests, req, y);
                        if tv.requests.contains(x) && tv.requests.contains(y) {
                            let ja = choose|j: int|
                                0 <= j < tv.requests.len() && tv.requests[j] == x;
                            let jb = choose|j: int|
                                0 <= j < tv.requests.len() && tv.requests[j] == y;
                            assert(ja != jb);
                        } else if tv.requests.contains(x) {
                            let ja = choose|j: int|
                                0 <= j < tv.requests.len() && tv.requests[j] == x;
                            assert(y == req);
                        } else if tv.requests.contains(y) {
                            let jb = choose|j: int|
                                0 <= j < tv.requests.len() && tv.requests[j] == y;
                            assert(x == req);
                        }
                    }
                }
            },
        }
    }
}

/// Removing an agent's grant from a well-formed policy keeps it
/// well-formed.
proof fn lemma_on_exit_preserves_wf(p: PolicyView, agent: AgentID, k: int)
    requires
        policy_wf_at(p, k),
    ensures
        policy_wf_at(policy_on_exit_spec(p, agent), k),
{
    match p {
        PolicyView::StopSign(sv) => {
            crate::sorted::lemma_acc_remove_sorted(sv.accepted, agent);
            let na = acc_remove(sv.accepted, agent);
            assert forall|i: int| 0 <= i < na.len() implies (#[trigger] na[i]).1.parent
                == sv.id by {
                assert(na.contains(na[i]));
                lemma_acc_remove_membership(sv.accepted, agent, na[i]);
                let j = choose|j: int| 0 <= j < sv.accepted.len() && sv.accepted[j] == na[i];
            }
            assert forall|i: int| 0 <= i < sv.approaching.len() implies !acc_has(
                na,
                (#[trigger] sv.approaching[i]).agent,
            ) by {
                crate::sorted::lemma_acc_remove_has(sv.accepted, agent, sv.approaching[i].agent);
            }
            assert forall|i: int| 0 <= i < sv.waiting.len() implies !acc_has(
                na,
                (#[trigger] sv.waiting[i]).0.agent,
            ) by {
                crate::sorted::lemma_acc_remove_has(sv.accepted, agent, sv.waiting[i].0.agent);
            }
        },
        PolicyView::TrafficSignal(tv) => {
            crate::sorted::lemma_acc_remove_sorted(tv.accepted, agent);
            let na = acc_remove(tv.accepted, agent);
            assert forall|i: int| 0 <= i < na.len() implies (#[trigger] na[i]).1.parent
                == tv.id by {
                assert(na.contains(na[i]));
                lemma_acc_remove_membership(tv.accepted, agent, na[i]);
                let j = choose|j: int| 0 <= j < tv.accepted.len() && tv.accepted[j] == na[i];
            }
            assert forall|i: int| 0 <= i < tv.requests.len() implies !acc_has(
                na,
                (#[trigger] tv.requests[i]).agent,
            ) by {
                crate::sorted::lemma_acc_remove_has(tv.accepted, agent, tv.requests[i].agent);
            }
        },
    }
}

/// Mapping requests to events distributes over concatenation.
pub proof fn lemma_events_of_concat(a: Seq<Request>, b: Seq<Request>)
    ensures
        events_of(a + b) == events_of(a) + events_of(b),
{
    assert forall|i: int| 0 <= i < (a + b).len() implies events_of(a + b)[i] == (events_of(a)
        + events_of(b))[i] by {
        if i < a.len() {
            assert((a + b)[i] == a[i]);
        } else {
            assert((a + b)[i] == b[i - a.len()]);
        }
    }
    assert(events_of(a + b) =~= events_of(a) + events_of(b));
}

/// The debug-flag write used by the diagnostic toggle.
pub open spec fn policy_set_debug(p: PolicyView, b: bool) -> PolicyView {
    match p {
        PolicyView::StopSign(sv) => PolicyView::StopSign(
            StopSignView {
                id: sv.id,
                approaching: sv.approaching,
                waiting: sv.waiting,
                accepted: sv.accepted,
                debug: b,
            },
        ),
        PolicyView::TrafficSignal(tv) => PolicyView::TrafficSignal(
            TrafficSignalView {
                id: tv.id,
                requests: tv.requests,
                accepted: tv.accepted,
                debug: b,
            },
        ),
    }
}

/// What the diagnostic toggle does: clear the previous target's flag, set
/// the new one, remember the target.
pub open spec fn sim_debug_spec(v: SimView, id: usize) -> SimView {
    let cleared = match v.debug {
        Option::Some(d) => v.intersections.update(
            d as int,
            policy_set_debug(v.intersections[d as int], false),
        ),
        Option::None => v.intersections,
    };
    SimView {
        intersections: cleared.update(id as int, policy_set_debug(cleared[id as int], true)),
        debug: Option::Some(id),
    }
}

/// Setting the debug flag changes no other part of a policy.
proof fn lemma_set_debug_preserves_wf(p: PolicyView, b: bool, k: int)
    requires
        policy_wf_at(p, k),
    ensures
        policy_wf_at(policy_set_debug(p, b), k),
{
}

impl IntersectionSimState {
    /// Advances every intersection policy exactly once, in ascending id
    /// order, appending one event per newly admitted request.
    pub fn step(
        &mut self,
        events: &mut Vec<Event>,
        time: Tick,
        map: &RoadMap,
        control: &ControlMap,
        info: &AgentInfo,
    )
        requires
            sim_wf(old(self)@),
            sim_times_le(old(self)@, time),
            control.wf(),
            control_covers(*control, old(self)@),
        ensures
            final(self)@.intersections.len() == old(self)@.intersections.len(),
            forall|k: int|
                0 <= k < old(self)@.intersections.len() ==> final(self)@.intersections[k]
                    == policy_step_spec(
                    #[trigger] old(self)@.intersections[k],
                    time,
                    *map,
                    *control,
                    *info,
                ).0,
            final(self)@.debug == old(self)@.debug,
            final(events)@ == old(events)@ + events_of(
                sim_step_admitted(old(self)@.intersections, 0, time, *map, *control, *info),
            ),
            sim_wf(final(self)@),
            sim_times_le(final(self)@, time),
    {
        let ghost v0 = self@;
        let n = self.intersections.len();
        let mut k: usize = 0;
        proof {
            assert(events@ + events_of(
                sim_step_admitted(v0.intersections, 0, time, *map, *control, *info),
            ) =~= old(events)@ + events_of(
                sim_step_admitted(v0.intersections, 0, time, *map, *control, *info),
            ));
        }
        while k < n
            invariant
                k <= n,
                n == v0.intersections.len(),
                v0 == old(self)@,
                sim_wf(v0),
                sim_times_le(v0, time),
                control.wf(),
                self@.intersections.len() == n,
                self@.debug == v0.debug,
                forall|j: int|
                    0 <= j < k ==> self@.intersections[j] == policy_step_spec(
                        #[trigger] v0.intersections[j],
                        time,
                        *map,
                        *control,
                        *info,
                    ).0,
                forall|j: int|
                    k <= j < n ==> self@.intersections[j] == #[trigger] v0.intersections[j],
                forall|j: int|
                    0 <= j < k ==> policy_wf_at(#[trigger] self@.intersections[j], j)
                        && policy_times_le(self@.intersections[j], time),
                old(events)@ + events_of(
                    sim_step_admitted(v0.intersections, 0, time, *map, *control, *info),
                ) == events@ + events_of(
                    sim_step_admitted(v0.intersections, k as int, time, *map, *control, *info),
                ),
            decreases n - k,
        {
            let ghost k0 = k as int;
            let ghost evpre = events@;
            let ghost ppre = v0.intersections[k0];
            let ghost prest = sim_step_admitted(
                v0.intersections,
                k0 + 1,
                time,
                *map,
                *control,
                *info,
            );
            let ghost pres = policy_step_spec(ppre, time, *map, *control, *info);
            let ghost intspre = self@.intersections;
            let p = &mut self.intersections[k];
            proof {
                assert(p@ == ppre);
                assert(policy_wf_at(p@, k0));
                assert(policy_times_le(p@, time));
            }
            match p {
                IntersectionPolicy::StopSignPolicy(sp) => {
                    proof {
                        assert(ss_wf(sp@));
                        assert(ss_times_le(sp@, time));
                    }
                    match control.stop_sign_index(sp.id) {
                        Option::Some(ci) => {
                            let pair = &control.stop_signs[ci];
                            let ctl = &pair.1;
                            proof {
                                assert(ss_find(control.stop_signs@, sp.id) == Option::Some(*ctl));
                            }
                            sp.step(events, time, map, ctl, info);
                            proof {
                                assert(p@ == pres.0);
                                assert(events@ == evpre + events_of(pres.1));
                            }
                        },
                        Option::None => {
                            proof {
                                assert(p@ == pres.0);
                                assert(events_of(Seq::<Request>::empty())
                                    =~= Seq::<Event>::empty());
                                assert(evpre + Seq::<Event>::empty() =~= evpre);
                                assert(events@ == evpre + events_of(pres.1));
                            }
                        },
                    }
                },
                IntersectionPolicy::TrafficSignalPolicy(tp) => {
                    proof {
                        assert(ts_wf(tp@));
                    }
                    match control.traffic_signal_index(tp.id) {
                        Option::Some(ci) => {
                            let pair = &control.traffic_signals[ci];
                            let ctl = &pair.1;
                            proof {
                                assert(ts_find(control.traffic_signals@, tp.id) == Option::Some(
                                    *ctl,
                                ));
                                assert(ctl.wf());
                            }
                            tp.step(events, time, ctl, info);
                            proof {
                                assert(p@ == pres.0);
                                assert(events@ == evpre + events_of(pres.1));
                            }
                        },
                        Option::None => {
                            proof {
                                assert(p@ == pres.0);
                                assert(events_of(Seq::<Request>::empty())
                                    =~= Seq::<Event>::empty());
                                assert(evpre + Seq::<Event>::empty() =~= evpre);
                                assert(events@ == evpre + events_of(pres.1));
                            }
                        },
                    }
                },
            }
            proof {
                assert(self@.intersections =~= intspre.update(k0, pres.0));
                lemma_events_of_concat(pres.1, prest);
                assert(sim_step_admitted(v0.intersections, k0, time, *map, *control, *info)
                    == pres.1 + prest);
                assert((evpre + events_of(pres.1)) + events_of(prest) =~= evpre + (events_of(
                    pres.1,
                ) + events_of(prest)));
            }
            k += 1;
        }
        proof {
            assert(sim_step_admitted(v0.intersections, n as int, time, *map, *control, *info)
                =~= Seq::<Request>::empty());
            assert(events_of(Seq::<Request>::empty()) =~= Seq::<Event>::empty());
            assert(events@ + Seq::<Event>::empty() =~= events@);
            assert forall|j: int| 0 <= j < self@.intersections.len() implies policy_wf_at(
                #[trigger] self@.intersections[j],
                j,
            ) by {}
        }
    }

    /// Points the diagnostic flag at intersection `id`, clearing any
    /// previous target. The flag gates no logic here; a host program may
    /// read it to decide what to print.
    pub fn debug(&mut self, id: usize)
        requires
            sim_wf(old(self)@),
            id < old(self)@.intersections.len(),
        ensures
            final(self)@ == sim_debug_spec(old(self)@, id),
            sim_wf(final(self)@),
            forall|t: Tick|
                #[trigger] sim_times_le(old(self)@, t) ==> sim_times_le(final(self)@, t),
    {
        let ghost v0 = self@;
        let debug_old = self.debug;
        match debug_old {
            Option::Some(d) => {
                let ghost intspre = self@.intersections;
                let p = &mut self.intersections[d];
                match p {
                    IntersectionPolicy::StopSignPolicy(sp) => {
                        sp.debug = false;
                    },
                    IntersectionPolicy::TrafficSignalPolicy(tp) => {
                        tp.debug = false;
                    },
                }
                proof {
                    assert(self@.intersections =~= intspre.update(
                        d as int,
                        policy_set_debug(v0.intersections[d as int], false),
                    ));
                }
            },
            Option::None => {},
        }
        let ghost cleared = self@.intersections;
        let ghost intspre2 = self@.intersections;
        let p2 = &mut self.intersections[id];
        match p2 {
            IntersectionPolicy::StopSignPolicy(sp) => {
                sp.debug = true;
            },
            IntersectionPolicy::TrafficSignalPolicy(tp) => {
                tp.debug = true;
            },
        }
        self.debug = Option::Some(id);
        proof {
            assert(self@.intersections =~= intspre2.update(
                id as int,
                policy_set_debug(cleared[id as int], true),
            ));
            assert(self@ =~= sim_debug_spec(v0, id));
            assert forall|j: int| 0 <= j < self@.intersections.len() implies policy_wf_at(
                #[trigger] self@.intersections[j],
                j,
            ) by {
                lemma_set_debug_preserves_wf(v0.intersections[j], false, j);
                lemma_set_debug_preserves_wf(cleared[j], true, j);
                lemma_set_debug_preserves_wf(policy_set_debug(v0.intersections[j], false), true, j);
            }
            assert forall|t: Tick|
                #[trigger] sim_times_le(v0, t) implies sim_times_le(self@, t) by {
                assert forall|j: int| 0 <= j < self@.intersections.len() implies policy_times_le(
                    #[trigger] self@.intersections[j],
                    t,
                ) by {
                    assert(policy_times_le(v0.intersections[j], t));
                }
            }
        }
    }
}

} // verus!
