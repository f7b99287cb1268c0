//! The two intersection policies and their functional models.
//!
//! A stop-sign policy moves each request through three phases: approaching
//! (submitted, possibly still rolling), waiting (stopped or rolling up with
//! the right of way, timestamped) and accepted. A traffic-signal policy
//! admits requests whose turns are green in the active phase. Each policy's
//! `step` is proved equal to a spec-level model: a fold over the sorted
//! containers, which makes the whole tick a function of the inputs.

use vstd::prelude::*;

use crate::sorted::{
    acc_has, acc_insert, acc_insert_vec, lemma_acc_insert_has,
    lemma_acc_insert_membership,
    lemma_acc_insert_sorted, lemma_cons_contains, lemma_wait_insert_has,
    lemma_wait_insert_membership, lemma_wait_insert_sorted, sorted_acc, sorted_reqs,
    sorted_wait, wait_has, wait_insert, wait_insert_vec,
};
use crate::types::{
    agent_lt, priority_rank, req_lt, AgentID, Event, Request, Tick, TurnID, TurnPriority,
    WAIT_AT_STOP_SIGN,
};
use crate::world::{priority_of, AgentInfo, ControlStopSign, ControlTrafficSignal, Cycle, RoadMap};

verus! {

/// Mathematical state of one stop-sign policy.
#[verifier::ext_equal]
pub ghost struct StopSignView {
    pub id: usize,
    pub approaching: Seq<Request>,
    pub waiting: Seq<(Request, Tick)>,
    pub accepted: Seq<(AgentID, TurnID)>,
    pub debug: bool,
}

/// Mathematical state of one traffic-signal policy.
#[verifier::ext_equal]
pub ghost struct TrafficSignalView {
    pub id: usize,
    pub requests: Seq<Request>,
    pub accepted: Seq<(AgentID, TurnID)>,
    pub debug: bool,
}

/// Mathematical state of one intersection's policy.
#[verifier::ext_equal]
pub ghost enum PolicyView {
    StopSign(StopSignView),
    TrafficSignal(TrafficSignalView),
}

/// The accepted map of either policy kind.
pub open spec fn policy_accepted(p: PolicyView) -> Seq<(AgentID, TurnID)> {
    match p {
        PolicyView::StopSign(s) => s.accepted,
        PolicyView::TrafficSignal(t) => t.accepted,
    }
}

/// The id of either policy kind.
pub open spec fn policy_id(p: PolicyView) -> usize {
    match p {
        PolicyView::StopSign(s) => s.id,
        PolicyView::TrafficSignal(t) => t.id,
    }
}

/// Well-formed stop-sign state: all three containers sorted with unique
/// keys, every stored turn belongs to this intersection, and each agent
/// holds at most one thing here: the approaching and waiting requests have
/// pairwise distinct agents, none of which is an accepted key.
pub open spec fn ss_wf(v: StopSignView) -> bool {
    &&& sorted_reqs(v.approaching)
    &&& sorted_wait(v.waiting)
    &&& sorted_acc(v.accepted)
    &&& forall|i: int|
        0 <= i < v.approaching.len() ==> (#[trigger] v.approaching[i]).turn.parent == v.id
    &&& forall|i: int| 0 <= i < v.waiting.len() ==> (#[trigger] v.waiting[i]).0.turn.parent == v.id
    &&& forall|i: int| 0 <= i < v.accepted.len() ==> (#[trigger] v.accepted[i]).1.parent == v.id
    &&& forall|i: int, j: int|
        0 <= i < j < v.approaching.len() ==> (#[trigger] v.approaching[i]).agent != (
        #[trigger] v.approaching[j]).agent
    &&& forall|i: int, j: int|
        0 <= i < j < v.waiting.len() ==> (#[trigger] v.waiting[i]).0.agent != (
        #[trigger] v.waiting[j]).0.agent
    &&& forall|i: int, j: int|
        0 <= i < v.approaching.len() && 0 <= j < v.waiting.len() ==> (
        #[trigger] v.approaching[i]).agent != (#[trigger] v.waiting[j]).0.agent
    &&& forall|i: int|
        0 <= i < v.approaching.len() ==> !acc_has(v.accepted, (#[trigger] v.approaching[i]).agent)
    &&& forall|i: int|
        0 <= i < v.waiting.len() ==> !acc_has(v.accepted, (#[trigger] v.waiting[i]).0.agent)
}

/// Every waiting timestamp is at or before `time`.
pub open spec fn ss_times_le(v: StopSignView, time: Tick) -> bool {
    forall|i: int| 0 <= i < v.waiting.len() ==> (#[trigger] v.waiting[i]).1 <= time
}

/// Well-formed traffic-signal state: sorted containers, every stored turn
/// belongs to this intersection, and each agent holds at most one thing
/// here: the pending requests have pairwise distinct agents, none of which
/// is an accepted key.
pub open spec fn ts_wf(v: TrafficSignalView) -> bool {
    &&& sorted_reqs(v.requests)
    &&& sorted_acc(v.accepted)
    &&& forall|i: int| 0 <= i < v.requests.len() ==> (#[trigger] v.requests[i]).turn.parent == v.id
    &&& forall|i: int| 0 <= i < v.accepted.len() ==> (#[trigger] v.accepted[i]).1.parent == v.id
    &&& forall|i: int, j: int|
        0 <= i < j < v.requests.len() ==> (#[trigger] v.requests[i]).agent != (
        #[trigger] v.requests[j]).agent
    &&& forall|i: int|
        0 <= i < v.requests.len() ==> !acc_has(v.accepted, (#[trigger] v.requests[i]).agent)
}

/// Well-formed policy state whose id is `k`.
pub open spec fn policy_wf_at(p: PolicyView, k: int) -> bool {
    match p {
        PolicyView::StopSign(s) => s.id == k && ss_wf(s),
        PolicyView::TrafficSignal(t) => t.id == k && ts_wf(t),
    }
}

/// Timestamps of a policy are at or before `time`; trivial for signals.
pub open spec fn policy_times_le(p: PolicyView, time: Tick) -> bool {
    match p {
        PolicyView::StopSign(s) => ss_times_le(s, time),
        PolicyView::TrafficSignal(_) => true,
    }
}

/// An approaching request is promoted to waiting when its agent leads its
/// lane and either the turn need not stop or the agent has stopped.
pub open spec fn promote_cond(ss: ControlStopSign, info: AgentInfo, r: Request) -> bool {
    info.leader_spec(r.agent) && (priority_of(ss.priorities@, r.turn) != TurnPriority::Stop
        || info.stopped_spec(r.agent))
}

/// The promotion pass over `app` from index `i` on: returns the requests
/// kept approaching, and the waiting map with every promoted request
/// inserted at `time`.
pub open spec fn ss_promote_from(
    app: Seq<Request>,
    i: int,
    w: Seq<(Request, Tick)>,
    ss: ControlStopSign,
    info: AgentInfo,
    time: Tick,
) -> (Seq<Request>, Seq<(Request, Tick)>)
    decreases app.len() - i,
{
    if i < 0 || i >= app.len() {
        (Seq::empty(), w)
    } else if promote_cond(ss, info, app[i]) {
        ss_promote_from(app, i + 1, wait_insert(w, app[i], time), ss, info, time)
    } else {
        let sub = ss_promote_from(app, i + 1, w, ss, info, time);
        (seq![app[i]] + sub.0, sub.1)
    }
}

/// Whether `turn` crosses some already-accepted turn.
pub open spec fn conflicts_with_accepted(
    m: RoadMap,
    acc: Seq<(AgentID, TurnID)>,
    turn: TurnID,
) -> bool {
    exists|i: int| 0 <= i < acc.len() && m.conflicts_spec(turn, (#[trigger] acc[i]).1)
}

/// Whether some waiting request with strictly higher stop-sign priority
/// conflicts with `turn`.
pub open spec fn waiting_higher_blocks(
    m: RoadMap,
    ss: ControlStopSign,
    w: Seq<(Request, Tick)>,
    turn: TurnID,
) -> bool {
    exists|i: int|
        0 <= i < w.len() && m.conflicts_spec(turn, (#[trigger] w[i]).0.turn) && priority_rank(
            priority_of(ss.priorities@, w[i].0.turn),
        ) > priority_rank(priority_of(ss.priorities@, turn))
}

/// A waiting entry is admitted when its turn crosses no accepted turn
/// (including turns accepted earlier in the same pass), no higher-priority
/// waiting conflict exists, and a `Stop` turn has dwelt the full stop-sign
/// delay.
pub open spec fn admit_cond(
    m: RoadMap,
    ss: ControlStopSign,
    w_all: Seq<(Request, Tick)>,
    acc: Seq<(AgentID, TurnID)>,
    time: Tick,
    p: (Request, Tick),
) -> bool {
    &&& !conflicts_with_accepted(m, acc, p.0.turn)
    &&& !waiting_higher_blocks(m, ss, w_all, p.0.turn)
    &&& (priority_of(ss.priorities@, p.0.turn) != TurnPriority::Stop || time - p.1
        >= WAIT_AT_STOP_SIGN)
}

/// The admission pass over the waiting snapshot `w_all` from index `i` on,
/// with `acc` grown sequentially: returns the final accepted map and the
/// admitted requests in admission order.
pub open spec fn ss_admit_from(
    w_all: Seq<(Request, Tick)>,
    i: int,
    acc: Seq<(AgentID, TurnID)>,
    m: RoadMap,
    ss: ControlStopSign,
    time: Tick,
) -> (Seq<(AgentID, TurnID)>, Seq<Request>)
    decreases w_all.len() - i,
{
    if i < 0 || i >= w_all.len() {
        (acc, Seq::empty())
    } else if admit_cond(m, ss, w_all, acc, time, w_all[i]) {
        let sub = ss_admit_from(
            w_all,
            i + 1,
            acc_insert(acc, w_all[i].0.agent, w_all[i].0.turn),
            m,
            ss,
            time,
        );
        (sub.0, seq![w_all[i].0] + sub.1)
    } else {
        ss_admit_from(w_all, i + 1, acc, m, ss, time)
    }
}

/// The accepted map as it stands when the admission pass that started at
/// `i` with `acc` reaches index `j`: every earlier admission applied.
pub open spec fn ss_acc_before(
    w_all: Seq<(Request, Tick)>,
    i: int,
    j: int,
    acc: Seq<(AgentID, TurnID)>,
    m: RoadMap,
    ss: ControlStopSign,
    time: Tick,
) -> Seq<(AgentID, TurnID)>
    decreases j - i,
{
    if j <= i {
        acc
    } else {
        let prev = ss_acc_before(w_all, i, j - 1, acc, m, ss, time);
        if admit_cond(m, ss, w_all, prev, time, w_all[j - 1]) {
            acc_insert(prev, w_all[j - 1].0.agent, w_all[j - 1].0.turn)
        } else {
            prev
        }
    }
}

/// Starting the accumulation one step later, from the stepped map, reaches
/// the same accepted map.
proof fn lemma_ss_acc_before_shift(
    w_all: Seq<(Request, Tick)>,
    i: int,
    j: int,
    acc: Seq<(AgentID, TurnID)>,
    m: RoadMap,
    ss: ControlStopSign,
    time: Tick,
)
    requires
        i < j,
    ensures
        ss_acc_before(w_all, i, j, acc, m, ss, time) == ss_acc_before(
            w_all,
            i + 1,
            j,
            ss_acc_before(w_all, i, i + 1, acc, m, ss, time),
            m,
            ss,
            time,
        ),
    decreases j - i,
{
    if j == i + 1 {
    } else {
        lemma_ss_acc_before_shift(w_all, i, j - 1, acc, m, ss, time);
    }
}

/// A waiting entry is admitted exactly when it satisfies the admission
/// rule against the accepted map accumulated up to its own slot: every
/// earlier admission of the same pass already counts as accepted.
pub proof fn lemma_ss_admit_iff(
    w_all: Seq<(Request, Tick)>,
    i: int,
    acc: Seq<(AgentID, TurnID)>,
    m: RoadMap,
    ss: ControlStopSign,
    time: Tick,
    j: int,
)
    requires
        sorted_wait(w_all),
        0 <= i <= j < w_all.len(),
    ensures
        ss_admit_from(w_all, i, acc, m, ss, time).1.contains(w_all[j].0) <==> admit_cond(
            m,
            ss,
            w_all,
            ss_acc_before(w_all, i, j, acc, m, ss, time),
            time,
            w_all[j],
        ),
    decreases w_all.len() - i,
{
    let res = ss_admit_from(w_all, i, acc, m, ss, time);
    if admit_cond(m, ss, w_all, acc, time, w_all[i]) {
        let acc2 = acc_insert(acc, w_all[i].0.agent, w_all[i].0.turn);
        let sub = ss_admit_from(w_all, i + 1, acc2, m, ss, time);
        lemma_cons_contains(w_all[i].0, sub.1, w_all[j].0);
        if j == i {
            assert(res.1[0] == w_all[i].0);
            assert(res.1.contains(w_all[i].0));
            assert(ss_acc_before(w_all, i, i, acc, m, ss, time) == acc);
        } else {
            assert(ss_acc_before(w_all, i, i, acc, m, ss, time) == acc);
            assert(ss_acc_before(w_all, i, i + 1, acc, m, ss, time) == acc2);
            lemma_ss_acc_before_shift(w_all, i, j, acc, m, ss, time);
            lemma_ss_admit_iff(w_all, i + 1, acc2, m, ss, time, j);
            if sub.1.contains(w_all[j].0) || w_all[j].0 == w_all[i].0 {
                if w_all[j].0 == w_all[i].0 {
                    assert(req_lt(w_all[i].0, w_all[j].0));
                    assert(false);
                }
            }
        }
    } else {
        let sub = ss_admit_from(w_all, i + 1, acc, m, ss, time);
        if j == i {
            assert(ss_acc_before(w_all, i, i, acc, m, ss, time) == acc);
            if res.1.contains(w_all[j].0) {
                lemma_ss_admit_admitted(w_all, i + 1, acc, m, ss, time, w_all[j].0);
                let jj = choose|jj: int| i + 1 <= jj < w_all.len() && (#[trigger] w_all[jj]).0
                    == w_all[j].0;
                assert(req_lt(w_all[j].0, w_all[jj].0));
                assert(false);
            }
        } else {
            assert(ss_acc_before(w_all, i, i, acc, m, ss, time) == acc);
            assert(ss_acc_before(w_all, i, i + 1, acc, m, ss, time) == acc);
            lemma_ss_acc_before_shift(w_all, i, j, acc, m, ss, time);
            lemma_ss_admit_iff(w_all, i + 1, acc, m, ss, time, j);
        }
    }
}

/// The waiting entries whose requests were not admitted, in order.
pub open spec fn keep_unadmitted(w: Seq<(Request, Tick)>, admitted: Seq<Request>) -> Seq<
    (Request, Tick),
>
    decreases w.len(),
{
    if w.len() == 0 {
        w
    } else {
        let rest = keep_unadmitted(w.drop_first(), admitted);
        if admitted.contains(w[0].0) {
            rest
        } else {
            seq![w[0]] + rest
        }
    }
}

/// One whole stop-sign tick: promote, then admit against the promoted
/// waiting snapshot, then drop admitted entries from waiting.
pub open spec fn ss_step_spec(
    v: StopSignView,
    m: RoadMap,
    ss: ControlStopSign,
    info: AgentInfo,
    time: Tick,
) -> (StopSignView, Seq<Request>) {
    let pr = ss_promote_from(v.approaching, 0, v.waiting, ss, info, time);
    let ad = ss_admit_from(pr.1, 0, v.accepted, m, ss, time);
    (
        StopSignView {
            id: v.id,
            approaching: pr.0,
            waiting: keep_unadmitted(pr.1, ad.1),
            accepted: ad.0,
            debug: v.debug,
        },
        ad.1,
    )
}

/// The phase of plan `ts` active at `time`.
pub open spec fn cycle_of(ts: ControlTrafficSignal, time: Tick) -> Cycle {
    ts.cycles@[ts.current_cycle_index(time)]
}

/// An accepted agent lingers from an earlier phase: its turn is no longer
/// green. The policy then admits nothing this tick.
pub open spec fn ts_frozen(v: TrafficSignalView, cycle: Cycle) -> bool {
    exists|i: int| 0 <= i < v.accepted.len() && !cycle.contains_spec((#[trigger] v.accepted[i]).1)
}

/// A signal request is admitted when its turn is green and its agent leads
/// its lane.
pub open spec fn ts_admit_cond(
    cycle: Cycle,
    info: AgentInfo,
    acc: Seq<(AgentID, TurnID)>,
    r: Request,
) -> bool {
    cycle.contains_spec(r.turn) && info.leader_spec(r.agent)
}

/// The admission pass over the signal requests from index `i` on: returns
/// the requests kept for the next tick, the final accepted map, and the
/// admitted requests in admission order.
pub open spec fn ts_admit_from(
    reqs: Seq<Request>,
    i: int,
    acc: Seq<(AgentID, TurnID)>,
    cycle: Cycle,
    info: AgentInfo,
) -> (Seq<Request>, Seq<(AgentID, TurnID)>, Seq<Request>)
    decreases reqs.len() - i,
{
    if i < 0 || i >= reqs.len() {
        (Seq::empty(), acc, Seq::empty())
    } else if ts_admit_cond(cycle, info, acc, reqs[i]) {
        let sub = ts_admit_from(reqs, i + 1, acc_insert(acc, reqs[i].agent, reqs[i].turn), cycle, info);
        (sub.0, sub.1, seq![reqs[i]] + sub.2)
    } else {
        let sub = ts_admit_from(reqs, i + 1, acc, cycle, info);
        (seq![reqs[i]] + sub.0, sub.1, sub.2)
    }
}

/// One whole traffic-signal tick: freeze if an accepted agent overran its
/// phase, else admit every green leader request.
pub open spec fn ts_step_spec(
    v: TrafficSignalView,
    ts: ControlTrafficSignal,
    info: AgentInfo,
    time: Tick,
) -> (TrafficSignalView, Seq<Request>) {
    let cycle = cycle_of(ts, time);
    if ts_frozen(v, cycle) {
        (v, Seq::empty())
    } else {
        let ad = ts_admit_from(v.requests, 0, v.accepted, cycle, info);
        (
            TrafficSignalView { id: v.id, requests: ad.0, accepted: ad.1, debug: v.debug },
            ad.2,
        )
    }
}

/// The events reporting each admitted request, in admission order.
pub open spec fn events_of(admitted: Seq<Request>) -> Seq<Event> {
    admitted.map_values(|r: Request| Event::IntersectionAcceptsRequest(r))
}

/// No two accepted entries hold crossing turns.
pub open spec fn acc_ok(m: RoadMap, acc: Seq<(AgentID, TurnID)>) -> bool {
    forall|i: int, j: int|
        0 <= i < acc.len() && 0 <= j < acc.len() && i != j ==> !m.conflicts_spec(
            (#[trigger] acc[i]).1,
            (#[trigger] acc[j]).1,
        )
}

/// A request stays approaching exactly when it stood at or after position
/// `i` and fails the promotion condition.
pub proof fn lemma_ss_promote_kept(
    app: Seq<Request>,
    i: int,
    w: Seq<(Request, Tick)>,
    ss: ControlStopSign,
    info: AgentInfo,
    time: Tick,
    x: Request,
)
    requires
        0 <= i,
        sorted_reqs(app),
        forall|k: int| i <= k < app.len() ==> !wait_has(w, #[trigger] app[k]),
    ensures
        ss_promote_from(app, i, w, ss, info, time).0.contains(x) <==> (exists|j: int|
            i <= j < app.len() && app[j] == x && !promote_cond(ss, info, x)),
    decreases app.len() - i,
{
    let res = ss_promote_from(app, i, w, ss, info, time);
    if i < 0 || i >= app.len() {
    } else if promote_cond(ss, info, app[i]) {
        let w2 = wait_insert(w, app[i], time);
        assert forall|k: int| i + 1 <= k < app.len() implies !wait_has(
            w2,
            #[trigger] app[k],
        ) by {
            lemma_wait_insert_has(w, app[i], time, app[k]);
            assert(req_lt(app[i], app[k]));
            assert(!wait_has(w, app[k]));
        }
        lemma_ss_promote_kept(app, i + 1, w2, ss, info, time, x);
        if exists|j: int| i <= j < app.len() && app[j] == x && !promote_cond(ss, info, x) {
            let j = choose|j: int| i <= j < app.len() && app[j] == x && !promote_cond(ss, info, x);
            assert(j != i);
        }
    } else {
        lemma_ss_promote_kept(app, i + 1, w, ss, info, time, x);
        let sub = ss_promote_from(app, i + 1, w, ss, info, time);
        lemma_cons_contains(app[i], sub.0, x);
        if res.0.contains(x) {
            if x == app[i] {
                assert(app[i] == x && !promote_cond(ss, info, x));
            }
        }
        if exists|j: int| i <= j < app.len() && app[j] == x && !promote_cond(ss, info, x) {
            let j = choose|j: int| i <= j < app.len() && app[j] == x && !promote_cond(ss, info, x);
            if j == i {
                assert(x == app[i]);
            }
        }
    }
}

/// A waiting entry after promotion is an old entry or a newly promoted
/// request stamped with the current tick.
pub proof fn lemma_ss_promote_wait(
    app: Seq<Request>,
    i: int,
    w: Seq<(Request, Tick)>,
    ss: ControlStopSign,
    info: AgentInfo,
    time: Tick,
    p: (Request, Tick),
)
    requires
        0 <= i,
        sorted_reqs(app),
        forall|k: int| i <= k < app.len() ==> !wait_has(w, #[trigger] app[k]),
    ensures
        ss_promote_from(app, i, w, ss, info, time).1.contains(p) <==> (w.contains(p) || (
        exists|j: int|
            i <= j < app.len() && app[j] == p.0 && promote_cond(ss, info, p.0) && p.1 == time)),
    decreases app.len() - i,
{
    let res = ss_promote_from(app, i, w, ss, info, time);
    if i < 0 || i >= app.len() {
    } else if promote_cond(ss, info, app[i]) {
        let w2 = wait_insert(w, app[i], time);
        assert forall|k: int| i + 1 <= k < app.len() implies !wait_has(
            w2,
            #[trigger] app[k],
        ) by {
            lemma_wait_insert_has(w, app[i], time, app[k]);
            assert(req_lt(app[i], app[k]));
            assert(!wait_has(w, app[k]));
        }
        lemma_ss_promote_wait(app, i + 1, w2, ss, info, time, p);
        lemma_wait_insert_membership(w, app[i], time, p);
        if res.1.contains(p) {
            if w2.contains(p) {
                if !w.contains(p) {
                    assert(p == (app[i], time));
                    assert(app[i] == p.0 && promote_cond(ss, info, p.0) && p.1 == time);
                }
            }
        }
        if w.contains(p) {
            assert(w2.contains(p));
        }
        if exists|j: int|
            i <= j < app.len() && app[j] == p.0 && promote_cond(ss, info, p.0) && p.1 == time {
            let j = choose|j: int|
                i <= j < app.len() && app[j] == p.0 && promote_cond(ss, info, p.0) && p.1 == time;
            if j == i {
                assert(w2.contains(p));
            }
        }
    } else {
        lemma_ss_promote_wait(app, i + 1, w, ss, info, time, p);
        if exists|j: int|
            i <= j < app.len() && app[j] == p.0 && promote_cond(ss, info, p.0) && p.1 == time {
            let j = choose|j: int|
                i <= j < app.len() && app[j] == p.0 && promote_cond(ss, info, p.0) && p.1 == time;
            assert(j != i);
        }
    }
}

/// Promotion keeps both containers sorted, keeps the approaching and
/// waiting sets disjoint, and never stamps an entry after `time`.
pub proof fn lemma_ss_promote_sorted(
    app: Seq<Request>,
    i: int,
    w: Seq<(Request, Tick)>,
    ss: ControlStopSign,
    info: AgentInfo,
    time: Tick,
)
    requires
        sorted_reqs(app),
        sorted_wait(w),
        forall|k: int| i <= k < app.len() ==> !wait_has(w, #[trigger] app[k]),
        forall|k: int| 0 <= k < w.len() ==> (#[trigger] w[k]).1 <= time,
    ensures
        sorted_reqs(ss_promote_from(app, i, w, ss, info, time).0),
        sorted_wait(ss_promote_from(app, i, w, ss, info, time).1),
        forall|k: int|
            0 <= k < ss_promote_from(app, i, w, ss, info, time).1.len() ==> (
            #[trigger] ss_promote_from(app, i, w, ss, info, time).1[k]).1 <= time,
    decreases app.len() - i,
{
    let res = ss_promote_from(app, i, w, ss, info, time);
    if i < 0 || i >= app.len() {
    } else if promote_cond(ss, info, app[i]) {
        let w2 = wait_insert(w, app[i], time);
        lemma_wait_insert_sorted(w, app[i], time);
        assert forall|k: int| i + 1 <= k < app.len() implies !wait_has(
            w2,
            #[trigger] app[k],
        ) by {
            lemma_wait_insert_has(w, app[i], time, app[k]);
            assert(req_lt(app[i], app[k]));
            assert(!wait_has(w, app[k]));
        }
        assert forall|k: int| 0 <= k < w2.len() implies (#[trigger] w2[k]).1 <= time by {
            assert(w2.contains(w2[k]));
            lemma_wait_insert_membership(w, app[i], time, w2[k]);
            if w.contains(w2[k]) {
                let j = choose|j: int| 0 <= j < w.len() && w[j] == w2[k];
            }
        }
        lemma_ss_promote_sorted(app, i + 1, w2, ss, info, time);
    } else {
        lemma_ss_promote_sorted(app, i + 1, w, ss, info, time);
        let sub = ss_promote_from(app, i + 1, w, ss, info, time);
        assert forall|a: int, b: int| 0 <= a < b < res.0.len() implies req_lt(
            res.0[a],
            res.0[b],
        ) by {
            if a == 0 {
                let x = sub.0[b - 1];
                assert(sub.0.contains(x));
                lemma_ss_promote_kept(app, i + 1, w, ss, info, time, x);
                let j = choose|j: int|
                    i + 1 <= j < app.len() && app[j] == x && !promote_cond(ss, info, x);
                assert(req_lt(app[i], app[j]));
            } else {
                assert(req_lt(sub.0[a - 1], sub.0[b - 1]));
            }
        }
    }
}

/// Promotion keeps the one-agent-one-request discipline: the promoted
/// waiting map and the kept approaching set still have pairwise distinct
/// agents, disjoint from each other and from the accepted keys.
pub proof fn lemma_ss_promote_agents(
    app: Seq<Request>,
    w: Seq<(Request, Tick)>,
    acc: Seq<(AgentID, TurnID)>,
    ss: ControlStopSign,
    info: AgentInfo,
    time: Tick,
)
    requires
        sorted_reqs(app),
        sorted_wait(w),
        forall|k: int| 0 <= k < w.len() ==> (#[trigger] w[k]).1 <= time,
        forall|i: int, j: int|
            0 <= i < j < app.len() ==> (#[trigger] app[i]).agent != (#[trigger] app[j]).agent,
        forall|i: int, j: int|
            0 <= i < j < w.len() ==> (#[trigger] w[i]).0.agent != (#[trigger] w[j]).0.agent,
        forall|i: int, j: int|
            0 <= i < app.len() && 0 <= j < w.len() ==> (#[trigger] app[i]).agent != (
            #[trigger] w[j]).0.agent,
        forall|i: int| 0 <= i < app.len() ==> !acc_has(acc, (#[trigger] app[i]).agent),
        forall|i: int| 0 <= i < w.len() ==> !acc_has(acc, (#[trigger] w[i]).0.agent),
    ensures
        ({
            let pr = ss_promote_from(app, 0, w, ss, info, time);
            &&& forall|i: int, j: int|
                0 <= i < j < pr.1.len() ==> (#[trigger] pr.1[i]).0.agent != (
                #[trigger] pr.1[j]).0.agent
            &&& forall|i: int| 0 <= i < pr.1.len() ==> !acc_has(acc, (#[trigger] pr.1[i]).0.agent)
            &&& forall|i: int, j: int|
                0 <= i < j < pr.0.len() ==> (#[trigger] pr.0[i]).agent != (
                #[trigger] pr.0[j]).agent
            &&& forall|i: int, j: int|
                0 <= i < pr.0.len() && 0 <= j < pr.1.len() ==> (#[trigger] pr.0[i]).agent != (
                #[trigger] pr.1[j]).0.agent
            &&& forall|i: int| 0 <= i < pr.0.len() ==> !acc_has(acc, (#[trigger] pr.0[i]).agent)
        }),
{
    let pr = ss_promote_from(app, 0, w, ss, info, time);
    assert forall|k: int| 0 <= k < app.len() implies !wait_has(w, #[trigger] app[k]) by {
        if wait_has(w, app[k]) {
            let j = choose|j: int| 0 <= j < w.len() && w[j].0 == app[k];
        }
    }
    lemma_ss_promote_sorted(app, 0, w, ss, info, time);
    // Provenance of each result entry, used by every clause below.
    assert forall|i: int, j: int| 0 <= i < j < pr.1.len() implies (#[trigger] pr.1[i]).0.agent
        != (#[trigger] pr.1[j]).0.agent by {
        let x = pr.1[i];
        let y = pr.1[j];
        assert(pr.1.contains(x));
        assert(pr.1.contains(y));
        assert(req_lt(x.0, y.0));
        lemma_ss_promote_wait(app, 0, w, ss, info, time, x);
        lemma_ss_promote_wait(app, 0, w, ss, info, time, y);
        if w.contains(x) && w.contains(y) {
            let wi = choose|k: int| 0 <= k < w.len() && w[k] == x;
            let wj = choose|k: int| 0 <= k < w.len() && w[k] == y;
            assert(wi != wj);
        } else if w.contains(x) {
            let wi = choose|k: int| 0 <= k < w.len() && w[k] == x;
            let aj = choose|k: int|
                0 <= k < app.len() && app[k] == y.0 && promote_cond(ss, info, y.0) && y.1 == time;
        } else if w.contains(y) {
            let wj = choose|k: int| 0 <= k < w.len() && w[k] == y;
            let ai = choose|k: int|
                0 <= k < app.len() && app[k] == x.0 && promote_cond(ss, info, x.0) && x.1 == time;
        } else {
            let ai = choose|k: int|
                0 <= k < app.len() && app[k] == x.0 && promote_cond(ss, info, x.0) && x.1 == time;
            let aj = choose|k: int|
                0 <= k < app.len() && app[k] == y.0 && promote_cond(ss, info, y.0) && y.1 == time;
            assert(ai != aj);
        }
    }
    assert forall|i: int| 0 <= i < pr.1.len() implies !acc_has(
        acc,
        (#[trigger] pr.1[i]).0.agent,
    ) by {
        let x = pr.1[i];
        assert(pr.1.contains(x));
        lemma_ss_promote_wait(app, 0, w, ss, info, time, x);
        if w.contains(x) {
            let wi = choose|k: int| 0 <= k < w.len() && w[k] == x;
        } else {
            let ai = choose|k: int|
                0 <= k < app.len() && app[k] == x.0 && promote_cond(ss, info, x.0) && x.1 == time;
        }
    }
    assert forall|i: int, j: int| 0 <= i < j < pr.0.len() implies (#[trigger] pr.0[i]).agent != (
    #[trigger] pr.0[j]).agent by {
        let x = pr.0[i];
        let y = pr.0[j];
        assert(pr.0.contains(x));
        assert(pr.0.contains(y));
        assert(req_lt(x, y));
        lemma_ss_promote_kept(app, 0, w, ss, info, time, x);
        lemma_ss_promote_kept(app, 0, w, ss, info, time, y);
        let ai = choose|k: int| 0 <= k < app.len() && app[k] == x && !promote_cond(ss, info, x);
        let aj = choose|k: int| 0 <= k < app.len() && app[k] == y && !promote_cond(ss, info, y);
        assert(ai != aj);
    }
    assert forall|i: int, j: int|
        0 <= i < pr.0.len() && 0 <= j < pr.1.len() implies (#[trigger] pr.0[i]).agent != (
    #[trigger] pr.1[j]).0.agent by {
        let x = pr.0[i];
        let y = pr.1[j];
        assert(pr.0.contains(x));
        assert(pr.1.contains(y));
        lemma_ss_promote_kept(app, 0, w, ss, info, time, x);
        lemma_ss_promote_wait(app, 0, w, ss, info, time, y);
        let ai = choose|k: int| 0 <= k < app.len() && app[k] == x && !promote_cond(ss, info, x);
        if w.contains(y) {
            let wj = choose|k: int| 0 <= k < w.len() && w[k] == y;
        } else {
            let aj = choose|k: int|
                0 <= k < app.len() && app[k] == y.0 && promote_cond(ss, info, y.0) && y.1 == time;
            if app[ai].agent == app[aj].agent {
                assert(ai == aj);
                assert(x == y.0);
                assert(false);
            }
        }
    }
    assert forall|i: int| 0 <= i < pr.0.len() implies !acc_has(
        acc,
        (#[trigger] pr.0[i]).agent,
    ) by {
        let x = pr.0[i];
        assert(pr.0.contains(x));
        lemma_ss_promote_kept(app, 0, w, ss, info, time, x);
        let ai = choose|k: int| 0 <= k < app.len() && app[k] == x && !promote_cond(ss, info, x);
    }
}

/// Admission only grows the accepted map: every old grant survives with
/// its turn unchanged.
pub proof fn lemma_ss_admit_grows(
    w_all: Seq<(Request, Tick)>,
    i: int,
    acc: Seq<(AgentID, TurnID)>,
    m: RoadMap,
    ss: ControlStopSign,
    time: Tick,
    p: (AgentID, TurnID),
)
    requires
        forall|j: int| i <= j < w_all.len() ==> !acc_has(acc, (#[trigger] w_all[j]).0.agent),
        forall|a: int, b: int|
            i <= a < b < w_all.len() ==> (#[trigger] w_all[a]).0.agent != (
            #[trigger] w_all[b]).0.agent,
    ensures
        acc.contains(p) ==> ss_admit_from(w_all, i, acc, m, ss, time).0.contains(p),
        ss_admit_from(w_all, i, acc, m, ss, time).0.contains(p) && !acc.contains(p) ==> exists|
            j: int,
        |
            i <= j < w_all.len() && (#[trigger] w_all[j]).0.agent == p.0 && w_all[j].0.turn
                == p.1 && ss_admit_from(w_all, i, acc, m, ss, time).1.contains(w_all[j].0),
    decreases w_all.len() - i,
{
    let res = ss_admit_from(w_all, i, acc, m, ss, time);
    if i < 0 || i >= w_all.len() {
    } else if admit_cond(m, ss, w_all, acc, time, w_all[i]) {
        let acc2 = acc_insert(acc, w_all[i].0.agent, w_all[i].0.turn);
        assert(!acc_has(acc, w_all[i].0.agent));
        assert forall|j: int| i + 1 <= j < w_all.len() implies !acc_has(
            acc2,
            (#[trigger] w_all[j]).0.agent,
        ) by {
            lemma_acc_insert_has(acc, w_all[i].0.agent, w_all[i].0.turn, w_all[j].0.agent);
        }
        lemma_acc_insert_membership(acc, w_all[i].0.agent, w_all[i].0.turn, p);
        lemma_ss_admit_grows(w_all, i + 1, acc2, m, ss, time, p);
        let sub = ss_admit_from(w_all, i + 1, acc2, m, ss, time);
        if res.0.contains(p) && !acc.contains(p) {
            if acc2.contains(p) {
                assert(p == (w_all[i].0.agent, w_all[i].0.turn));
                assert(res.1[0] == w_all[i].0);
                assert(res.1.contains(w_all[i].0));
                assert((#[trigger] w_all[i]).0.agent == p.0 && w_all[i].0.turn == p.1
                    && res.1.contains(w_all[i].0));
            } else {
                let j = choose|j: int|
                    i + 1 <= j < w_all.len() && (#[trigger] w_all[j]).0.agent == p.0
                        && w_all[j].0.turn == p.1 && sub.1.contains(w_all[j].0);
                lemma_cons_contains(w_all[i].0, sub.1, w_all[j].0);
                assert(i <= j < w_all.len() && w_all[j].0.agent == p.0 && w_all[j].0.turn == p.1
                    && res.1.contains(w_all[j].0));
            }
        }
    } else {
        lemma_ss_admit_grows(w_all, i + 1, acc, m, ss, time, p);
        if res.0.contains(p) && !acc.contains(p) {
            let j = choose|j: int|
                i + 1 <= j < w_all.len() && (#[trigger] w_all[j]).0.agent == p.0
                && w_all[j].0.turn == p.1 && ss_admit_from(w_all, i + 1, acc, m, ss, time).1.contains(
                    w_all[j].0,
                );
            assert(i <= j < w_all.len() && w_all[j].0.agent == p.0 && w_all[j].0.turn == p.1
                && res.1.contains(w_all[j].0));
        }
    }
}

/// Every admitted request was a waiting request.
pub proof fn lemma_ss_admit_admitted(
    w_all: Seq<(Request, Tick)>,
    i: int,
    acc: Seq<(AgentID, TurnID)>,
    m: RoadMap,
    ss: ControlStopSign,
    time: Tick,
    r: Request,
)
    ensures
        ss_admit_from(w_all, i, acc, m, ss, time).1.contains(r) ==> exists|j: int|
            i <= j < w_all.len() && (#[trigger] w_all[j]).0 == r,
    decreases w_all.len() - i,
{
    let res = ss_admit_from(w_all, i, acc, m, ss, time);
    if i < 0 || i >= w_all.len() {
    } else if admit_cond(m, ss, w_all, acc, time, w_all[i]) {
        let acc2 = acc_insert(acc, w_all[i].0.agent, w_all[i].0.turn);
        lemma_ss_admit_admitted(w_all, i + 1, acc2, m, ss, time, r);
        let sub = ss_admit_from(w_all, i + 1, acc2, m, ss, time);
        lemma_cons_contains(w_all[i].0, sub.1, r);
        if res.1.contains(r) {
            if r == w_all[i].0 {
                assert((#[trigger] w_all[i]).0 == r);
            } else {
                let j = choose|j: int| i + 1 <= j < w_all.len() && (#[trigger] w_all[j]).0 == r;
                assert(i <= j < w_all.len() && w_all[j].0 == r);
            }
        }
    } else {
        lemma_ss_admit_admitted(w_all, i + 1, acc, m, ss, time, r);
        if res.1.contains(r) {
            let j = choose|j: int| i + 1 <= j < w_all.len() && (#[trigger] w_all[j]).0 == r;
            assert(i <= j < w_all.len() && w_all[j].0 == r);
        }
    }
}

/// Admission keeps the accepted map sorted.
pub proof fn lemma_ss_admit_sorted(
    w_all: Seq<(Request, Tick)>,
    i: int,
    acc: Seq<(AgentID, TurnID)>,
    m: RoadMap,
    ss: ControlStopSign,
    time: Tick,
)
    requires
        sorted_acc(acc),
        forall|j: int| i <= j < w_all.len() ==> !acc_has(acc, (#[trigger] w_all[j]).0.agent),
        forall|a: int, b: int|
            i <= a < b < w_all.len() ==> (#[trigger] w_all[a]).0.agent != (
            #[trigger] w_all[b]).0.agent,
    ensures
        sorted_acc(ss_admit_from(w_all, i, acc, m, ss, time).0),
    decreases w_all.len() - i,
{
    if i < 0 || i >= w_all.len() {
    } else if admit_cond(m, ss, w_all, acc, time, w_all[i]) {
        let acc2 = acc_insert(acc, w_all[i].0.agent, w_all[i].0.turn);
        assert(!acc_has(acc, w_all[i].0.agent));
        lemma_acc_insert_sorted(acc, w_all[i].0.agent, w_all[i].0.turn);
        assert forall|j: int| i + 1 <= j < w_all.len() implies !acc_has(
            acc2,
            (#[trigger] w_all[j]).0.agent,
        ) by {
            lemma_acc_insert_has(acc, w_all[i].0.agent, w_all[i].0.turn, w_all[j].0.agent);
        }
        lemma_ss_admit_sorted(w_all, i + 1, acc2, m, ss, time);
    } else {
        lemma_ss_admit_sorted(w_all, i + 1, acc, m, ss, time);
    }
}

/// Admission preserves conflict-freedom of the accepted map: each admitted
/// turn is checked against everything accepted before it in the same pass.
pub proof fn lemma_ss_admit_safe(
    w_all: Seq<(Request, Tick)>,
    i: int,
    acc: Seq<(AgentID, TurnID)>,
    m: RoadMap,
    ss: ControlStopSign,
    time: Tick,
)
    requires
        sorted_acc(acc),
        acc_ok(m, acc),
        forall|j: int| i <= j < w_all.len() ==> !acc_has(acc, (#[trigger] w_all[j]).0.agent),
        forall|a: int, b: int|
            i <= a < b < w_all.len() ==> (#[trigger] w_all[a]).0.agent != (
            #[trigger] w_all[b]).0.agent,
    ensures
        acc_ok(m, ss_admit_from(w_all, i, acc, m, ss, time).0),
    decreases w_all.len() - i,
{
    if i < 0 || i >= w_all.len() {
    } else if admit_cond(m, ss, w_all, acc, time, w_all[i]) {
        let ag = w_all[i].0.agent;
        let tn = w_all[i].0.turn;
        let acc2 = acc_insert(acc, ag, tn);
        assert(!acc_has(acc, ag));
        lemma_acc_insert_sorted(acc, ag, tn);
        assert forall|j: int| i + 1 <= j < w_all.len() implies !acc_has(
            acc2,
            (#[trigger] w_all[j]).0.agent,
        ) by {
            lemma_acc_insert_has(acc, ag, tn, w_all[j].0.agent);
        }
        assert forall|a: int, b: int|
            0 <= a < acc2.len() && 0 <= b < acc2.len() && a != b implies !m.conflicts_spec(
            (#[trigger] acc2[a]).1,
            (#[trigger] acc2[b]).1,
        ) by {
            assert(acc2.contains(acc2[a]));
            assert(acc2.contains(acc2[b]));
            lemma_acc_insert_membership(acc, ag, tn, acc2[a]);
            lemma_acc_insert_membership(acc, ag, tn, acc2[b]);
            if acc.contains(acc2[a]) && acc.contains(acc2[b]) {
                let ka = choose|k: int| 0 <= k < acc.len() && acc[k] == acc2[a];
                let kb = choose|k: int| 0 <= k < acc.len() && acc[k] == acc2[b];
                if ka == kb {
                    assert(acc2[a] == acc2[b]);
                    assert(agent_lt(acc2[a].0, acc2[b].0) || agent_lt(acc2[b].0, acc2[a].0));
                } else {
                    assert(!m.conflicts_spec(acc[ka].1, acc[kb].1));
                }
            } else if acc.contains(acc2[a]) {
                let ka = choose|k: int| 0 <= k < acc.len() && acc[k] == acc2[a];
                assert(acc2[b] == (ag, tn));
                assert(!m.conflicts_spec(tn, acc[ka].1));
            } else if acc.contains(acc2[b]) {
                let kb = choose|k: int| 0 <= k < acc.len() && acc[k] == acc2[b];
                assert(acc2[a] == (ag, tn));
                assert(!m.conflicts_spec(tn, acc[kb].1));
            } else {
                assert(acc2[a] == (ag, tn) && acc2[b] == (ag, tn));
                assert(agent_lt(acc2[a].0, acc2[b].0) || agent_lt(acc2[b].0, acc2[a].0));
            }
        }
        lemma_ss_admit_safe(w_all, i + 1, acc2, m, ss, time);
    } else {
        lemma_ss_admit_safe(w_all, i + 1, acc, m, ss, time);
    }
}

/// Every admitted `Stop`-priority request has waited the full stop-sign
/// delay, measured from the tick at which it stopped.
pub proof fn lemma_ss_admit_dwell(
    w_all: Seq<(Request, Tick)>,
    i: int,
    acc: Seq<(AgentID, TurnID)>,
    m: RoadMap,
    ss: ControlStopSign,
    time: Tick,
    j: int,
)
    requires
        sorted_wait(w_all),
        i <= j < w_all.len(),
        ss_admit_from(w_all, i, acc, m, ss, time).1.contains(w_all[j].0),
        priority_of(ss.priorities@, w_all[j].0.turn) == TurnPriority::Stop,
    ensures
        time - w_all[j].1 >= WAIT_AT_STOP_SIGN,
    decreases w_all.len() - i,
{
    let res = ss_admit_from(w_all, i, acc, m, ss, time);
    if i < 0 || i >= w_all.len() {
    } else if admit_cond(m, ss, w_all, acc, time, w_all[i]) {
        let acc2 = acc_insert(acc, w_all[i].0.agent, w_all[i].0.turn);
        let sub = ss_admit_from(w_all, i + 1, acc2, m, ss, time);
        lemma_cons_contains(w_all[i].0, sub.1, w_all[j].0);
        if j == i {
        } else {
            if w_all[j].0 == w_all[i].0 {
                assert(req_lt(w_all[i].0, w_all[j].0));
                assert(false);
            }
            lemma_ss_admit_dwell(w_all, i + 1, acc2, m, ss, time, j);
        }
    } else {
        if j == i {
            lemma_ss_admit_admitted(w_all, i + 1, acc, m, ss, time, w_all[j].0);
            let k = choose|k: int|
                i + 1 <= k < w_all.len() && (#[trigger] w_all[k]).0 == w_all[j].0;
            assert(req_lt(w_all[j].0, w_all[k].0));
            assert(false);
        } else {
            lemma_ss_admit_dwell(w_all, i + 1, acc, m, ss, time, j);
        }
    }
}

/// An entry survives the waiting cleanup exactly when its request was not
/// admitted.
pub proof fn lemma_keep_unadmitted_mem(
    w: Seq<(Request, Tick)>,
    admitted: Seq<Request>,
    p: (Request, Tick),
)
    ensures
        keep_unadmitted(w, admitted).contains(p) <==> (w.contains(p) && !admitted.contains(p.0)),
    decreases w.len(),
{
    if w.len() == 0 {
    } else {
        lemma_keep_unadmitted_mem(w.drop_first(), admitted, p);
        let rest = keep_unadmitted(w.drop_first(), admitted);
        lemma_cons_contains(w[0], w.drop_first(), p);
        assert(w =~= seq![w[0]] + w.drop_first());
        if admitted.contains(w[0].0) {
            if keep_unadmitted(w, admitted).contains(p) {
                assert(rest.contains(p));
            }
            if w.contains(p) && !admitted.contains(p.0) {
                assert(p != w[0]);
                assert(w.drop_first().contains(p));
            }
        } else {
            lemma_cons_contains(w[0], rest, p);
        }
    }
}

/// The waiting cleanup keeps the map sorted.
pub proof fn lemma_keep_unadmitted_sorted(w: Seq<(Request, Tick)>, admitted: Seq<Request>)
    requires
        sorted_wait(w),
    ensures
        sorted_wait(keep_unadmitted(w, admitted)),
    decreases w.len(),
{
    if w.len() == 0 {
    } else {
        assert forall|a: int, b: int| 0 <= a < b < w.drop_first().len() implies req_lt(
            (#[trigger] w.drop_first()[a]).0,
            (#[trigger] w.drop_first()[b]).0,
        ) by {
            assert(w.drop_first()[a] == w[a + 1]);
            assert(w.drop_first()[b] == w[b + 1]);
        }
        lemma_keep_unadmitted_sorted(w.drop_first(), admitted);
        let rest = keep_unadmitted(w.drop_first(), admitted);
        let out = keep_unadmitted(w, admitted);
        if admitted.contains(w[0].0) {
        } else {
            assert forall|a: int, b: int| 0 <= a < b < out.len() implies req_lt(
                out[a].0,
                out[b].0,
            ) by {
                if a == 0 {
                    let p = rest[b - 1];
                    assert(rest.contains(p));
                    lemma_keep_unadmitted_mem(w.drop_first(), admitted, p);
                    let k = choose|k: int|
                        0 <= k < w.drop_first().len() && w.drop_first()[k] == p;
                    assert(w[k + 1] == p);
                    assert(req_lt(w[0].0, p.0));
                } else {
                    assert(req_lt(rest[a - 1].0, rest[b - 1].0));
                }
            }
        }
    }
}

/// Every kept signal request stood at or after position `i`, and every
/// request at or after `i` is either kept or admitted.
pub proof fn lemma_ts_admit_kept(
    reqs: Seq<Request>,
    i: int,
    acc: Seq<(AgentID, TurnID)>,
    cycle: Cycle,
    info: AgentInfo,
    x: Request,
)
    ensures
        ts_admit_from(reqs, i, acc, cycle, info).0.contains(x) ==> exists|j: int|
            i <= j < reqs.len() && #[trigger] reqs[j] == x,
        ts_admit_from(reqs, i, acc, cycle, info).2.contains(x) ==> exists|j: int|
            i <= j < reqs.len() && #[trigger] reqs[j] == x,
        ts_admit_from(reqs, i, acc, cycle, info).2.contains(x) ==> cycle.contains_spec(x.turn)
            && info.leader_spec(x.agent),
    decreases reqs.len() - i,
{
    let res = ts_admit_from(reqs, i, acc, cycle, info);
    if i < 0 || i >= reqs.len() {
    } else if ts_admit_cond(cycle, info, acc, reqs[i]) {
        let acc2 = acc_insert(acc, reqs[i].agent, reqs[i].turn);
        lemma_ts_admit_kept(reqs, i + 1, acc2, cycle, info, x);
        let sub = ts_admit_from(reqs, i + 1, acc2, cycle, info);
        lemma_cons_contains(reqs[i], sub.2, x);
        if res.0.contains(x) {
            let j = choose|j: int| i + 1 <= j < reqs.len() && #[trigger] reqs[j] == x;
            assert(i <= j < reqs.len() && reqs[j] == x);
        }
        if res.2.contains(x) {
            if x == reqs[i] {
                assert(reqs[i] == x);
            } else {
                let j = choose|j: int| i + 1 <= j < reqs.len() && #[trigger] reqs[j] == x;
                assert(i <= j < reqs.len() && reqs[j] == x);
            }
        }
    } else {
        lemma_ts_admit_kept(reqs, i + 1, acc, cycle, info, x);
        let sub = ts_admit_from(reqs, i + 1, acc, cycle, info);
        lemma_cons_contains(reqs[i], sub.0, x);
        if res.0.contains(x) {
            if x == reqs[i] {
                assert(reqs[i] == x);
            } else {
                let j = choose|j: int| i + 1 <= j < reqs.len() && #[trigger] reqs[j] == x;
                assert(i <= j < reqs.len() && reqs[j] == x);
            }
        }
        if res.2.contains(x) {
            let j = choose|j: int| i + 1 <= j < reqs.len() && #[trigger] reqs[j] == x;
            assert(i <= j < reqs.len() && reqs[j] == x);
        }
    }
}

/// Signal admission only grows the accepted map; every new entry comes
/// from a request at or after position `i`.
pub proof fn lemma_ts_admit_grows(
    reqs: Seq<Request>,
    i: int,
    acc: Seq<(AgentID, TurnID)>,
    cycle: Cycle,
    info: AgentInfo,
    p: (AgentID, TurnID),
)
    requires
        forall|j: int| i <= j < reqs.len() ==> !acc_has(acc, (#[trigger] reqs[j]).agent),
        forall|a: int, b: int|
            i <= a < b < reqs.len() ==> (#[trigger] reqs[a]).agent != (#[trigger] reqs[b]).agent,
    ensures
        acc.contains(p) ==> ts_admit_from(reqs, i, acc, cycle, info).1.contains(p),
        ts_admit_from(reqs, i, acc, cycle, info).1.contains(p) && !acc.contains(p) ==> exists|
            j: int,
        |
            i <= j < reqs.len() && (#[trigger] reqs[j]).agent == p.0 && reqs[j].turn == p.1
                && ts_admit_from(reqs, i, acc, cycle, info).2.contains(reqs[j]),
    decreases reqs.len() - i,
{
    let res = ts_admit_from(reqs, i, acc, cycle, info);
    if i < 0 || i >= reqs.len() {
    } else if ts_admit_cond(cycle, info, acc, reqs[i]) {
        let acc2 = acc_insert(acc, reqs[i].agent, reqs[i].turn);
        assert(!acc_has(acc, reqs[i].agent));
        assert forall|j: int| i + 1 <= j < reqs.len() implies !acc_has(
            acc2,
            (#[trigger] reqs[j]).agent,
        ) by {
            lemma_acc_insert_has(acc, reqs[i].agent, reqs[i].turn, reqs[j].agent);
        }
        lemma_acc_insert_membership(acc, reqs[i].agent, reqs[i].turn, p);
        lemma_ts_admit_grows(reqs, i + 1, acc2, cycle, info, p);
        let sub = ts_admit_from(reqs, i + 1, acc2, cycle, info);
        if res.1.contains(p) && !acc.contains(p) {
            if acc2.contains(p) {
                assert(p == (reqs[i].agent, reqs[i].turn));
                assert(res.2[0] == reqs[i]);
                assert(res.2.contains(reqs[i]));
                assert((#[trigger] reqs[i]).agent == p.0 && reqs[i].turn == p.1 && res.2.contains(
                    reqs[i],
                ));
            } else {
                let j = choose|j: int|
                    i + 1 <= j < reqs.len() && (#[trigger] reqs[j]).agent == p.0 && reqs[j].turn
                        == p.1 && sub.2.contains(reqs[j]);
                lemma_cons_contains(reqs[i], sub.2, reqs[j]);
                assert(i <= j < reqs.len() && reqs[j].agent == p.0 && reqs[j].turn == p.1
                    && res.2.contains(reqs[j]));
            }
        }
    } else {
        lemma_ts_admit_grows(reqs, i + 1, acc, cycle, info, p);
        if res.1.contains(p) && !acc.contains(p) {
            let j = choose|j: int|
                i + 1 <= j < reqs.len() && (#[trigger] reqs[j]).agent == p.0 && reqs[j].turn
                    == p.1 && ts_admit_from(reqs, i + 1, acc, cycle, info).2.contains(reqs[j]);
            assert(i <= j < reqs.len() && reqs[j].agent == p.0 && reqs[j].turn == p.1
                && res.2.contains(reqs[j]));
        }
    }
}

/// Signal admission keeps the accepted map sorted.
pub proof fn lemma_ts_admit_sorted(
    reqs: Seq<Request>,
    i: int,
    acc: Seq<(AgentID, TurnID)>,
    cycle: Cycle,
    info: AgentInfo,
)
    requires
        sorted_acc(acc),
        forall|j: int| i <= j < reqs.len() ==> !acc_has(acc, (#[trigger] reqs[j]).agent),
        forall|a: int, b: int|
            i <= a < b < reqs.len() ==> (#[trigger] reqs[a]).agent != (#[trigger] reqs[b]).agent,
    ensures
        sorted_acc(ts_admit_from(reqs, i, acc, cycle, info).1),
    decreases reqs.len() - i,
{
    if i < 0 || i >= reqs.len() {
    } else if ts_admit_cond(cycle, info, acc, reqs[i]) {
        let acc2 = acc_insert(acc, reqs[i].agent, reqs[i].turn);
        assert(!acc_has(acc, reqs[i].agent));
        assert forall|j: int| i + 1 <= j < reqs.len() implies !acc_has(
            acc2,
            (#[trigger] reqs[j]).agent,
        ) by {
            lemma_acc_insert_has(acc, reqs[i].agent, reqs[i].turn, reqs[j].agent);
        }
        lemma_acc_insert_sorted(acc, reqs[i].agent, reqs[i].turn);
        lemma_ts_admit_sorted(reqs, i + 1, acc2, cycle, info);
    } else {
        lemma_ts_admit_sorted(reqs, i + 1, acc, cycle, info);
    }
}

/// The kept signal requests stay sorted.
pub proof fn lemma_ts_admit_kept_sorted(
    reqs: Seq<Request>,
    i: int,
    acc: Seq<(AgentID, TurnID)>,
    cycle: Cycle,
    info: AgentInfo,
)
    requires
        sorted_reqs(reqs),
    ensures
        sorted_reqs(ts_admit_from(reqs, i, acc, cycle, info).0),
    decreases reqs.len() - i,
{
    let res = ts_admit_from(reqs, i, acc, cycle, info);
    if i < 0 || i >= reqs.len() {
    } else if ts_admit_cond(cycle, info, acc, reqs[i]) {
        let acc2 = acc_insert(acc, reqs[i].agent, reqs[i].turn);
        lemma_ts_admit_kept_sorted(reqs, i + 1, acc2, cycle, info);
    } else {
        lemma_ts_admit_kept_sorted(reqs, i + 1, acc, cycle, info);
        let sub = ts_admit_from(reqs, i + 1, acc, cycle, info);
        assert forall|a: int, b: int| 0 <= a < b < res.0.len() implies req_lt(
            res.0[a],
            res.0[b],
        ) by {
            if a == 0 {
                let x = sub.0[b - 1];
                assert(sub.0.contains(x));
                lemma_ts_admit_kept(reqs, i + 1, acc, cycle, info, x);
                let j = choose|j: int| i + 1 <= j < reqs.len() && #[trigger] reqs[j] == x;
                assert(req_lt(reqs[i], reqs[j]));
            } else {
                assert(req_lt(sub.0[a - 1], sub.0[b - 1]));
            }
        }
    }
}

/// Within one signal pass a pending request is admitted exactly when its
/// turn is green and its agent leads; it is kept exactly otherwise. The
/// admission test is independent of the accumulating accepted map.
pub proof fn lemma_ts_admit_iff(
    reqs: Seq<Request>,
    i: int,
    acc: Seq<(AgentID, TurnID)>,
    cycle: Cycle,
    info: AgentInfo,
    j: int,
)
    requires
        sorted_reqs(reqs),
        0 <= i <= j < reqs.len(),
    ensures
        ts_admit_from(reqs, i, acc, cycle, info).2.contains(reqs[j]) <==> ts_admit_cond(
            cycle,
            info,
            acc,
            reqs[j],
        ),
        ts_admit_from(reqs, i, acc, cycle, info).0.contains(reqs[j]) <==> !ts_admit_cond(
            cycle,
            info,
            acc,
            reqs[j],
        ),
    decreases reqs.len() - i,
{
    let res = ts_admit_from(reqs, i, acc, cycle, info);
    if ts_admit_cond(cycle, info, acc, reqs[i]) {
        let acc2 = acc_insert(acc, reqs[i].agent, reqs[i].turn);
        let sub = ts_admit_from(reqs, i + 1, acc2, cycle, info);
        lemma_cons_contains(reqs[i], sub.2, reqs[j]);
        if j == i {
            assert(res.2[0] == reqs[i]);
            assert(res.2.contains(reqs[i]));
            if res.0.contains(reqs[j]) {
                lemma_ts_admit_kept(reqs, i + 1, acc2, cycle, info, reqs[j]);
                let jj = choose|jj: int| i + 1 <= jj < reqs.len() && #[trigger] reqs[jj]
                    == reqs[j];
                assert(req_lt(reqs[j], reqs[jj]));
                assert(false);
            }
        } else {
            lemma_ts_admit_iff(reqs, i + 1, acc2, cycle, info, j);
            if res.2.contains(reqs[j]) && reqs[j] == reqs[i] {
                assert(req_lt(reqs[i], reqs[j]));
                assert(false);
            }
        }
    } else {
        let sub = ts_admit_from(reqs, i + 1, acc, cycle, info);
        lemma_cons_contains(reqs[i], sub.0, reqs[j]);
        if j == i {
            assert(res.0[0] == reqs[i]);
            assert(res.0.contains(reqs[i]));
            if res.2.contains(reqs[j]) {
                lemma_ts_admit_kept(reqs, i + 1, acc, cycle, info, reqs[j]);
                let jj = choose|jj: int| i + 1 <= jj < reqs.len() && #[trigger] reqs[jj]
                    == reqs[j];
                assert(req_lt(reqs[j], reqs[jj]));
                assert(false);
            }
        } else {
            lemma_ts_admit_iff(reqs, i + 1, acc, cycle, info, j);
            if res.0.contains(reqs[j]) && reqs[j] == reqs[i] {
                assert(req_lt(reqs[i], reqs[j]));
                assert(false);
            }
        }
    }
}

/// No request is both kept and admitted by one signal pass.
pub proof fn lemma_ts_admit_partition(
    reqs: Seq<Request>,
    i: int,
    acc: Seq<(AgentID, TurnID)>,
    cycle: Cycle,
    info: AgentInfo,
    x: Request,
)
    requires
        sorted_reqs(reqs),
    ensures
        !(ts_admit_from(reqs, i, acc, cycle, info).0.contains(x) && ts_admit_from(
            reqs,
            i,
            acc,
            cycle,
            info,
        ).2.contains(x)),
    decreases reqs.len() - i,
{
    let res = ts_admit_from(reqs, i, acc, cycle, info);
    if i < 0 || i >= reqs.len() {
    } else if ts_admit_cond(cycle, info, acc, reqs[i]) {
        let acc2 = acc_insert(acc, reqs[i].agent, reqs[i].turn);
        lemma_ts_admit_partition(reqs, i + 1, acc2, cycle, info, x);
        let sub = ts_admit_from(reqs, i + 1, acc2, cycle, info);
        lemma_cons_contains(reqs[i], sub.2, x);
        if res.0.contains(x) && res.2.contains(x) {
            lemma_ts_admit_kept(reqs, i + 1, acc2, cycle, info, x);
            let j = choose|j: int| i + 1 <= j < reqs.len() && #[trigger] reqs[j] == x;
            assert(req_lt(reqs[i], reqs[j]));
            assert(x != reqs[i]);
            assert(sub.2.contains(x));
        }
    } else {
        lemma_ts_admit_partition(reqs, i + 1, acc, cycle, info, x);
        let sub = ts_admit_from(reqs, i + 1, acc, cycle, info);
        lemma_cons_contains(reqs[i], sub.0, x);
        if res.0.contains(x) && res.2.contains(x) {
            lemma_ts_admit_kept(reqs, i + 1, acc, cycle, info, x);
            let j = choose|j: int| i + 1 <= j < reqs.len() && #[trigger] reqs[j] == x;
            assert(req_lt(reqs[i], reqs[j]));
            assert(x != reqs[i]);
            assert(sub.0.contains(x));
        }
    }
}

/// All turns in one signal phase are mutually conflict-free; supplying
/// such phases is the control layer's obligation.
pub open spec fn cycle_ok(m: RoadMap, cycle: Cycle) -> bool {
    forall|t1: TurnID, t2: TurnID|
        cycle.contains_spec(t1) && cycle.contains_spec(t2) ==> !(#[trigger] m.conflicts_spec(
            t1,
            t2,
        ))
}

/// With a conflict-free phase, signal admission preserves conflict-freedom
/// of the accepted map, provided every accepted turn is green.
pub proof fn lemma_ts_admit_safe(
    reqs: Seq<Request>,
    i: int,
    acc: Seq<(AgentID, TurnID)>,
    cycle: Cycle,
    info: AgentInfo,
    m: RoadMap,
)
    requires
        acc_ok(m, acc),
        cycle_ok(m, cycle),
        forall|k: int| 0 <= k < acc.len() ==> cycle.contains_spec((#[trigger] acc[k]).1),
        forall|j: int| i <= j < reqs.len() ==> !acc_has(acc, (#[trigger] reqs[j]).agent),
        forall|a: int, b: int|
            i <= a < b < reqs.len() ==> (#[trigger] reqs[a]).agent != (#[trigger] reqs[b]).agent,
    ensures
        acc_ok(m, ts_admit_from(reqs, i, acc, cycle, info).1),
        forall|k: int|
            0 <= k < ts_admit_from(reqs, i, acc, cycle, info).1.len() ==> cycle.contains_spec(
                (#[trigger] ts_admit_from(reqs, i, acc, cycle, info).1[k]).1,
            ),
    decreases reqs.len() - i,
{
    if i < 0 || i >= reqs.len() {
    } else if ts_admit_cond(cycle, info, acc, reqs[i]) {
        let ag = reqs[i].agent;
        let tn = reqs[i].turn;
        let acc2 = acc_insert(acc, ag, tn);
        assert(!acc_has(acc, ag));
        assert forall|j: int| i + 1 <= j < reqs.len() implies !acc_has(
            acc2,
            (#[trigger] reqs[j]).agent,
        ) by {
            lemma_acc_insert_has(acc, ag, tn, reqs[j].agent);
        }
        assert forall|k: int| 0 <= k < acc2.len() implies cycle.contains_spec(
            (#[trigger] acc2[k]).1,
        ) by {
            assert(acc2.contains(acc2[k]));
            lemma_acc_insert_membership(acc, ag, tn, acc2[k]);
            if acc.contains(acc2[k]) {
                let j = choose|j: int| 0 <= j < acc.len() && acc[j] == acc2[k];
            } else {
                assert(acc2[k] == (ag, tn));
            }
        }
        assert forall|a: int, b: int|
            0 <= a < acc2.len() && 0 <= b < acc2.len() && a != b implies !m.conflicts_spec(
            (#[trigger] acc2[a]).1,
            (#[trigger] acc2[b]).1,
        ) by {
            assert(cycle.contains_spec(acc2[a].1));
            assert(cycle.contains_spec(acc2[b].1));
        }
        lemma_ts_admit_safe(reqs, i + 1, acc2, cycle, info, m);
    } else {
        lemma_ts_admit_safe(reqs, i + 1, acc, cycle, info, m);
    }
}

/// Copies a waiting vector.
fn copy_wait_vec(v: &Vec<(Request, Tick)>) -> (out: Vec<(Request, Tick)>)
    ensures
        out@ == v@,
{
    let n = v.len();
    let mut out: Vec<(Request, Tick)> = Vec::new();
    let mut i: usize = 0;
    while i < n
        invariant
            i <= n,
            n == v@.len(),
            out@ == v@.take(i as int),
        decreases n - i,
    {
        out.push(v[i]);
        proof {
            assert(v@.take(i as int).push(v@[i as int]) =~= v@.take(i as int + 1));
        }
        i += 1;
    }
    proof {
        assert(v@.take(n as int) =~= v@);
    }
    out
}

/// Copies an accepted vector.
fn copy_acc_vec(v: &Vec<(AgentID, TurnID)>) -> (out: Vec<(AgentID, TurnID)>)
    ensures
        out@ == v@,
{
    let n = v.len();
    let mut out: Vec<(AgentID, TurnID)> = Vec::new();
    let mut i: usize = 0;
    while i < n
        invariant
            i <= n,
            n == v@.len(),
            out@ == v@.take(i as int),
        decreases n - i,
    {
        out.push(v[i]);
        proof {
            assert(v@.take(i as int).push(v@[i as int]) =~= v@.take(i as int + 1));
        }
        i += 1;
    }
    proof {
        assert(v@.take(n as int) =~= v@);
    }
    out
}

/// Whether a request vector holds `r`.
fn reqs_contains_vec(v: &Vec<Request>, r: Request) -> (b: bool)
    ensures
        b == v@.contains(r),
{
    let n = v.len();
    let mut i: usize = 0;
    while i < n
        invariant
            i <= n,
            n == v@.len(),
            forall|j: int| 0 <= j < i ==> v@[j] != r,
        decreases n - i,
    {
        if v[i] == r {
            assert(v@[i as int] == r);
            return true;
        }
        i += 1;
    }
    false
}

/// Decides whether `turn` crosses any accepted turn.
fn conflicts_with_any_exec(m: &RoadMap, acc: &Vec<(AgentID, TurnID)>, turn: TurnID) -> (b: bool)
    ensures
        b == conflicts_with_accepted(*m, acc@, turn),
{
    let n = acc.len();
    let mut i: usize = 0;
    while i < n
        invariant
            i <= n,
            n == acc@.len(),
            forall|j: int| 0 <= j < i ==> !m.conflicts_spec(turn, (#[trigger] acc@[j]).1),
        decreases n - i,
    {
        let (_a, t) = acc[i];
        if m.conflicts_with(turn, t) {
            assert(m.conflicts_spec(turn, acc@[i as int].1));
            return true;
        }
        i += 1;
    }
    false
}

/// Decides the priority rank used to compare stop-sign classes.
fn rank_exec(p: TurnPriority) -> (r: u64)
    ensures
        r == priority_rank(p),
{
    match p {
        TurnPriority::Stop => 0,
        TurnPriority::Yield => 1,
        TurnPriority::Priority => 2,
    }
}

/// Decides whether a higher-priority waiting conflict blocks `turn`.
fn waiting_higher_blocks_exec(
    m: &RoadMap,
    ss: &ControlStopSign,
    w: &Vec<(Request, Tick)>,
    turn: TurnID,
) -> (b: bool)
    ensures
        b == waiting_higher_blocks(*m, *ss, w@, turn),
{
    let base = rank_exec(ss.get_priority(turn));
    let n = w.len();
    let mut i: usize = 0;
    while i < n
        invariant
            i <= n,
            n == w@.len(),
            base == priority_rank(priority_of(ss.priorities@, turn)),
            forall|j: int|
                0 <= j < i ==> !(m.conflicts_spec(turn, (#[trigger] w@[j]).0.turn)
                    && priority_rank(priority_of(ss.priorities@, w@[j].0.turn)) > priority_rank(
                    priority_of(ss.priorities@, turn),
                )),
        decreases n - i,
    {
        let (r, _t) = w[i];
        if m.conflicts_with(turn, r.turn) {
            let other = rank_exec(ss.get_priority(r.turn));
            if other > base {
                assert(m.conflicts_spec(turn, w@[i as int].0.turn) && priority_rank(
                    priority_of(ss.priorities@, w@[i as int].0.turn),
                ) > priority_rank(priority_of(ss.priorities@, turn)));
                return true;
            }
        }
        i += 1;
    }
    false
}

/// Appends one admission event per admitted request, in order.
fn push_admit_events(events: &mut Vec<Event>, admitted: &Vec<Request>)
    ensures
        final(events)@ == old(events)@ + events_of(admitted@),
{
    let n = admitted.len();
    let mut i: usize = 0;
    proof {
        assert(events@ + events_of(admitted@.take(0)) =~= events@);
    }
    while i < n
        invariant
            i <= n,
            n == admitted@.len(),
            events@ == old(events)@ + events_of(admitted@.take(i as int)),
        decreases n - i,
    {
        events.push(Event::IntersectionAcceptsRequest(admitted[i]));
        proof {
            assert(events_of(admitted@.take(i as int)).push(
                Event::IntersectionAcceptsRequest(admitted@[i as int]),
            ) =~= events_of(admitted@.take(i as int + 1)));
            assert(old(events)@ + events_of(admitted@.take(i as int)).push(
                Event::IntersectionAcceptsRequest(admitted@[i as int]),
            ) =~= (old(events)@ + events_of(admitted@.take(i as int))).push(
                Event::IntersectionAcceptsRequest(admitted@[i as int]),
            ));
        }
        i += 1;
    }
    proof {
        assert(admitted@.take(n as int) =~= admitted@);
    }
}

/// One stop-sign intersection: requests move from approaching through
/// waiting to accepted, in the three sorted containers.
#[derive(PartialEq, Eq, Debug)]
pub struct StopSign {
    pub id: usize,
    pub approaching: Vec<Request>,
    pub waiting: Vec<(Request, Tick)>,
    pub accepted: Vec<(AgentID, TurnID)>,
    pub debug: bool,
}

impl View for StopSign {
    type V = StopSignView;

    open spec fn view(&self) -> StopSignView {
        StopSignView {
            id: self.id,
            approaching: self.approaching@,
            waiting: self.waiting@,
            accepted: self.accepted@,
            debug: self.debug,
        }
    }
}

/// The empty stop-sign state of intersection `id`.
pub open spec fn ss_fresh(id: usize) -> StopSignView {
    StopSignView {
        id: id,
        approaching: Seq::empty(),
        waiting: Seq::empty(),
        accepted: Seq::empty(),
        debug: false,
    }
}

impl StopSign {
    /// A stop-sign policy with no requests.
    pub fn new(id: usize) -> (s: StopSign)
        ensures
            s@ == ss_fresh(id),
    {
        let s = StopSign {
            id,
            approaching: Vec::new(),
            waiting: Vec::new(),
            accepted: Vec::new(),
            debug: false,
        };
        proof {
            assert(s@ =~= ss_fresh(id));
        }
        s
    }

    /// One tick of this intersection: promote stopped (or free-flowing)
    /// leaders, then admit every waiting request that clears the conflict,
    /// priority and dwell rules, appending one event per admission.
    pub fn step(
        &mut self,
        events: &mut Vec<Event>,
        time: Tick,
        m: &RoadMap,
        ss: &ControlStopSign,
        info: &AgentInfo,
    )
        requires
            ss_wf(old(self)@),
            ss_times_le(old(self)@, time),
        ensures
            final(self)@ == ss_step_spec(old(self)@, *m, *ss, *info, time).0,
            final(events)@ == old(events)@ + events_of(
                ss_step_spec(old(self)@, *m, *ss, *info, time).1,
            ),
            ss_wf(final(self)@),
            ss_times_le(final(self)@, time),
    {
        let ghost v0 = self@;
        // Promotion pass: approaching -> waiting.
        let mut kept: Vec<Request> = Vec::new();
        let mut wait1: Vec<(Request, Tick)> = copy_wait_vec(&self.waiting);
        let napp = self.approaching.len();
        let mut i: usize = 0;
        proof {
            assert(kept@ =~= Seq::<Request>::empty());
            assert(kept@ + ss_promote_from(v0.approaching, 0, wait1@, *ss, *info, time).0
                =~= ss_promote_from(v0.approaching, 0, wait1@, *ss, *info, time).0);
            assert forall|k: int| 0 <= k < napp implies !wait_has(
                wait1@,
                #[trigger] v0.approaching[k],
            ) by {
                if wait_has(wait1@, v0.approaching[k]) {
                    let j = choose|j: int|
                        0 <= j < wait1@.len() && wait1@[j].0 == v0.approaching[k];
                }
            }
        }
        while i < napp
            invariant
                i <= napp,
                napp == v0.approaching.len(),
                self@ == v0,
                ss_wf(v0),
                ss_times_le(v0, time),
                sorted_wait(wait1@),
                forall|k: int| 0 <= k < wait1@.len() ==> (#[trigger] wait1@[k]).1 <= time,
                forall|k: int|
                    i <= k < napp ==> !wait_has(wait1@, #[trigger] v0.approaching[k]),
                ss_promote_from(v0.approaching, 0, v0.waiting, *ss, *info, time) == (
                    kept@ + ss_promote_from(v0.approaching, i as int, wait1@, *ss, *info, time).0,
                    ss_promote_from(v0.approaching, i as int, wait1@, *ss, *info, time).1,
                ),
            decreases napp - i,
        {
            let ghost i0 = i as int;
            let r = self.approaching[i];
            let lead = info.is_leader(r.agent);
            let mut promote = false;
            if lead {
                let pri = ss.get_priority(r.turn);
                if pri == TurnPriority::Stop {
                    promote = info.is_stopped(r.agent);
                } else {
                    promote = true;
                }
            }
            assert(promote == promote_cond(*ss, *info, r));
            if promote {
                let ghost wpre = wait1@;
                assert(!wait_has(wpre, r));
                wait_insert_vec(&mut wait1, r, time);
                proof {
                    assert forall|k: int| i0 + 1 <= k < napp implies !wait_has(
                        wait1@,
                        #[trigger] v0.approaching[k],
                    ) by {
                        lemma_wait_insert_has(wpre, r, time, v0.approaching[k]);
                        assert(req_lt(v0.approaching[i0], v0.approaching[k]));
                    }
                    assert forall|k: int| 0 <= k < wait1@.len() implies (#[trigger] wait1@[k]).1 <= time by {
                        assert(wait1@.contains(wait1@[k]));
                        lemma_wait_insert_membership(wpre, r, time, wait1@[k]);
                        if wpre.contains(wait1@[k]) {
                            let j = choose|j: int| 0 <= j < wpre.len() && wpre[j] == wait1@[k];
                        }
                    }
                    assert(ss_promote_from(v0.approaching, i0, wpre, *ss, *info, time)
                        == ss_promote_from(v0.approaching, i0 + 1, wait1@, *ss, *info, time));
                }
            } else {
                let ghost kpre = kept@;
                kept.push(r);
                proof {
                    let sub = ss_promote_from(v0.approaching, i0 + 1, wait1@, *ss, *info, time);
                    assert(ss_promote_from(v0.approaching, i0, wait1@, *ss, *info, time) == (
                        seq![r] + sub.0,
                        sub.1,
                    ));
                    assert(kpre + (seq![r] + sub.0) =~= kept@ + sub.0);
                }
            }
            i += 1;
        }
        proof {
            assert(ss_promote_from(v0.approaching, napp as int, wait1@, *ss, *info, time).0
                =~= Seq::<Request>::empty());
            assert(kept@ + Seq::<Request>::empty() =~= kept@);
        }
        let ghost w1 = wait1@;
        let ghost pr = ss_promote_from(v0.approaching, 0, v0.waiting, *ss, *info, time);
        assert(pr.0 == kept@ && pr.1 == w1);

        // Admission pass: waiting -> accepted, sequential in request order.
        let ghost acc0 = v0.accepted;
        let mut admitted: Vec<Request> = Vec::new();
        let mut acc_new: Vec<(AgentID, TurnID)> = copy_acc_vec(&self.accepted);
        let nw = wait1.len();
        let mut i2: usize = 0;
        proof {
            assert(admitted@ =~= Seq::<Request>::empty());
            assert(admitted@ + ss_admit_from(w1, 0, acc0, *m, *ss, time).1
                =~= ss_admit_from(w1, 0, acc0, *m, *ss, time).1);
            lemma_ss_promote_agents(v0.approaching, v0.waiting, acc0, *ss, *info, time);
        }
        while i2 < nw
            invariant
                i2 <= nw,
                nw == w1.len(),
                wait1@ == w1,
                self@ == v0,
                sorted_acc(acc_new@),
                forall|k: int| 0 <= k < w1.len() ==> (#[trigger] w1[k]).1 <= time,
                forall|a: int, b: int|
                    0 <= a < b < w1.len() ==> (#[trigger] w1[a]).0.agent != (
                    #[trigger] w1[b]).0.agent,
                forall|j: int| i2 <= j < nw ==> !acc_has(acc_new@, (#[trigger] w1[j]).0.agent),
                ss_admit_from(w1, 0, acc0, *m, *ss, time) == (
                    ss_admit_from(w1, i2 as int, acc_new@, *m, *ss, time).0,
                    admitted@ + ss_admit_from(w1, i2 as int, acc_new@, *m, *ss, time).1,
                ),
            decreases nw - i2,
        {
            let ghost i0 = i2 as int;
            let (r, started) = wait1[i2];
            let mut admit_now = false;
            let conf = conflicts_with_any_exec(m, &acc_new, r.turn);
            if !conf {
                let blocked = waiting_higher_blocks_exec(m, ss, &wait1, r.turn);
                if !blocked {
                    let pri = ss.get_priority(r.turn);
                    if pri == TurnPriority::Stop {
                        admit_now = time - started >= WAIT_AT_STOP_SIGN;
                    } else {
                        admit_now = true;
                    }
                }
            }
            assert(admit_now == admit_cond(*m, *ss, w1, acc_new@, time, w1[i0]));
            if admit_now {
                let ghost apre = acc_new@;
                let ghost adpre = admitted@;
                assert(!acc_has(apre, r.agent));
                acc_insert_vec(&mut acc_new, r.agent, r.turn);
                admitted.push(r);
                proof {
                    let sub = ss_admit_from(w1, i0 + 1, acc_new@, *m, *ss, time);
                    assert(ss_admit_from(w1, i0, apre, *m, *ss, time) == (
                        sub.0,
                        seq![r] + sub.1,
                    ));
                    assert(adpre + (seq![r] + sub.1) =~= admitted@ + sub.1);
                    assert forall|j: int| i0 + 1 <= j < nw implies !acc_has(
                        acc_new@,
                        (#[trigger] w1[j]).0.agent,
                    ) by {
                        lemma_acc_insert_has(apre, r.agent, r.turn, w1[j].0.agent);
                    }
                }
            }
            i2 += 1;
        }
        proof {
            assert(admitted@ + Seq::<Request>::empty() =~= admitted@);
        }
        let ghost ad = ss_admit_from(w1, 0, acc0, *m, *ss, time);
        assert(ad.0 == acc_new@ && ad.1 == admitted@);

        // Cleanup pass: drop admitted entries from waiting.
        let mut wait_final: Vec<(Request, Tick)> = Vec::new();
        let ghost adm = admitted@;
        let mut i3: usize = 0;
        proof {
            assert(w1.skip(0) =~= w1);
            assert(wait_final@ + keep_unadmitted(w1, adm) =~= keep_unadmitted(w1, adm));
        }
        while i3 < nw
            invariant
                i3 <= nw,
                nw == w1.len(),
                wait1@ == w1,
                adm == admitted@,
                self@ == v0,
                keep_unadmitted(w1, adm) == wait_final@ + keep_unadmitted(
                    w1.skip(i3 as int),
                    adm,
                ),
            decreases nw - i3,
        {
            let ghost i0 = i3 as int;
            let (r, t) = wait1[i3];
            proof {
                assert(w1.skip(i0)[0] == w1[i0]);
                assert(w1.skip(i0).drop_first() =~= w1.skip(i0 + 1));
            }
            let isadm = reqs_contains_vec(&admitted, r);
            if !isadm {
                let ghost wfpre = wait_final@;
                wait_final.push((r, t));
                proof {
                    assert(keep_unadmitted(w1.skip(i0), adm) == seq![w1[i0]] + keep_unadmitted(
                        w1.skip(i0 + 1),
                        adm,
                    ));
                    assert(wfpre + (seq![w1[i0]] + keep_unadmitted(w1.skip(i0 + 1), adm))
                        =~= wait_final@ + keep_unadmitted(w1.skip(i0 + 1), adm));
                }
            }
            i3 += 1;
        }
        proof {
            assert(w1.skip(nw as int) =~= Seq::<(Request, Tick)>::empty());
            assert(wait_final@ + Seq::<(Request, Tick)>::empty() =~= wait_final@);
        }
        assert(wait_final@ == keep_unadmitted(w1, adm));

        self.approaching = kept;
        self.waiting = wait_final;
        self.accepted = acc_new;
        push_admit_events(events, &admitted);

        proof {
            let res = ss_step_spec(v0, *m, *ss, *info, time);
            assert(self@ =~= res.0);
            // Well-formedness of the new state.
            lemma_ss_promote_sorted(v0.approaching, 0, v0.waiting, *ss, *info, time);
            lemma_keep_unadmitted_sorted(w1, adm);
            assert forall|k: int| 0 <= k < self@.approaching.len() implies (
            #[trigger] self@.approaching[k]).turn.parent == self@.id by {
                assert(pr.0.contains(pr.0[k]));
                lemma_ss_promote_kept(v0.approaching, 0, v0.waiting, *ss, *info, time, pr.0[k]);
                let j = choose|j: int|
                    0 <= j < v0.approaching.len() && v0.approaching[j] == pr.0[k]
                        && !promote_cond(*ss, *info, pr.0[k]);
            }
            assert forall|k: int| 0 <= k < w1.len() implies (#[trigger] w1[k]).0.turn.parent
                == v0.id by {
                assert(w1.contains(w1[k]));
                lemma_ss_promote_wait(v0.approaching, 0, v0.waiting, *ss, *info, time, w1[k]);
                if v0.waiting.contains(w1[k]) {
                    let j = choose|j: int| 0 <= j < v0.waiting.len() && v0.waiting[j] == w1[k];
                } else {
                    let j = choose|j: int|
                        0 <= j < v0.approaching.len() && v0.approaching[j] == w1[k].0
                            && promote_cond(*ss, *info, w1[k].0) && w1[k].1 == time;
                }
            }
            assert forall|k: int| 0 <= k < self@.waiting.len() implies (#[trigger] self@.waiting[k]).0.turn.parent == self@.id by {
                assert(self@.waiting.contains(self@.waiting[k]));
                lemma_keep_unadmitted_mem(w1, adm, self@.waiting[k]);
                let j = choose|j: int| 0 <= j < w1.len() && w1[j] == self@.waiting[k];
            }
            assert forall|k: int| 0 <= k < self@.accepted.len() implies (#[trigger] self@.accepted[k]).1.parent == self@.id by {
                assert(self@.accepted.contains(self@.accepted[k]));
                lemma_ss_admit_grows(w1, 0, acc0, *m, *ss, time, self@.accepted[k]);
                if acc0.contains(self@.accepted[k]) {
                    let j = choose|j: int| 0 <= j < acc0.len() && acc0[j] == self@.accepted[k];
                } else {
                    let j = choose|j: int|
                        0 <= j < w1.len() && (#[trigger] w1[j]).0.agent == self@.accepted[k].0
                            && w1[j].0.turn == self@.accepted[k].1;
                }
            }
            // One agent, one pending request: the kept approaching set is
            // exactly pr.0, whose agent discipline the promotion lemma gives.
            assert forall|a: int, b: int|
                0 <= a < b < self@.approaching.len() implies (#[trigger] self@.approaching[a]).agent
                != (#[trigger] self@.approaching[b]).agent by {
                assert(pr.0[a].agent != pr.0[b].agent);
            }
            assert forall|a: int, b: int|
                0 <= a < b < self@.waiting.len() implies (#[trigger] self@.waiting[a]).0.agent
                != (#[trigger] self@.waiting[b]).0.agent by {
                let x = self@.waiting[a];
                let y = self@.waiting[b];
                assert(req_lt(x.0, y.0));
                assert(self@.waiting.contains(x));
                assert(self@.waiting.contains(y));
                lemma_keep_unadmitted_mem(w1, adm, x);
                lemma_keep_unadmitted_mem(w1, adm, y);
                let wa = choose|j: int| 0 <= j < w1.len() && w1[j] == x;
                let wb = choose|j: int| 0 <= j < w1.len() && w1[j] == y;
                assert(wa != wb);
            }
            assert forall|a: int, b: int|
                0 <= a < self@.approaching.len() && 0 <= b < self@.waiting.len() implies (
            #[trigger] self@.approaching[a]).agent != (#[trigger] self@.waiting[b]).0.agent by {
                let y = self@.waiting[b];
                assert(self@.waiting.contains(y));
                lemma_keep_unadmitted_mem(w1, adm, y);
                let wb = choose|j: int| 0 <= j < w1.len() && w1[j] == y;
                assert(pr.0[a].agent != pr.1[wb].0.agent);
            }
            assert forall|k: int| 0 <= k < self@.approaching.len() implies !acc_has(
                self@.accepted,
                (#[trigger] self@.approaching[k]).agent,
            ) by {
                let a = self@.approaching[k].agent;
                if acc_has(self@.accepted, a) {
                    let mi = choose|mi: int| 0 <= mi < ad.0.len() && ad.0[mi].0 == a;
                    assert(ad.0.contains(ad.0[mi]));
                    lemma_ss_admit_grows(w1, 0, acc0, *m, *ss, time, ad.0[mi]);
                    if acc0.contains(ad.0[mi]) {
                        let q = choose|q: int| 0 <= q < acc0.len() && acc0[q] == ad.0[mi];
                        assert(acc_has(acc0, a));
                        assert(!acc_has(acc0, pr.0[k].agent));
                        assert(false);
                    } else {
                        let j = choose|j: int|
                            0 <= j < w1.len() && (#[trigger] w1[j]).0.agent == ad.0[mi].0
                                && w1[j].0.turn == ad.0[mi].1 && ad.1.contains(w1[j].0);
                        assert(pr.0[k].agent != pr.1[j].0.agent);
                        assert(false);
                    }
                }
            }
            assert forall|k: int| 0 <= k < self@.waiting.len() implies !acc_has(
                self@.accepted,
                (#[trigger] self@.waiting[k]).0.agent,
            ) by {
                let p = self@.waiting[k];
                assert(self@.waiting.contains(p));
                lemma_keep_unadmitted_mem(w1, adm, p);
                let wi = choose|j: int| 0 <= j < w1.len() && w1[j] == p;
                if acc_has(self@.accepted, p.0.agent) {
                    let mi = choose|mi: int| 0 <= mi < ad.0.len() && ad.0[mi].0 == p.0.agent;
                    assert(ad.0.contains(ad.0[mi]));
                    lemma_ss_admit_grows(w1, 0, acc0, *m, *ss, time, ad.0[mi]);
                    if acc0.contains(ad.0[mi]) {
                        let q = choose|q: int| 0 <= q < acc0.len() && acc0[q] == ad.0[mi];
                        assert(acc_has(acc0, p.0.agent));
                        assert(!acc_has(acc0, pr.1[wi].0.agent));
                        assert(false);
                    } else {
                        let j = choose|j: int|
                            0 <= j < w1.len() && (#[trigger] w1[j]).0.agent == ad.0[mi].0
                                && w1[j].0.turn == ad.0[mi].1 && ad.1.contains(w1[j].0);
                        assert(j == wi) by {
                            if j != wi {
                                assert(w1[j].0.agent != w1[wi].0.agent);
                            }
                        }
                        assert(adm.contains(p.0));
                        assert(false);
                    }
                }
            }
            assert forall|k: int| 0 <= k < self@.waiting.len() implies (#[trigger] self@.waiting[k]).1 <= time by {
                assert(self@.waiting.contains(self@.waiting[k]));
                lemma_keep_unadmitted_mem(w1, adm, self@.waiting[k]);
                let j = choose|j: int| 0 <= j < w1.len() && w1[j] == self@.waiting[k];
            }
        }
    }
}

/// One signalized intersection: pending requests and the accepted map.
#[derive(PartialEq, Eq, Debug)]
pub struct TrafficSignal {
    pub id: usize,
    pub requests: Vec<Request>,
    pub accepted: Vec<(AgentID, TurnID)>,
    pub debug: bool,
}

impl View for TrafficSignal {
    type V = TrafficSignalView;

    open spec fn view(&self) -> TrafficSignalView {
        TrafficSignalView {
            id: self.id,
            requests: self.requests@,
            accepted: self.accepted@,
            debug: self.debug,
        }
    }
}

/// The empty traffic-signal state of intersection `id`.
pub open spec fn ts_fresh(id: usize) -> TrafficSignalView {
    TrafficSignalView { id: id, requests: Seq::empty(), accepted: Seq::empty(), debug: false }
}

impl TrafficSignal {
    /// A traffic-signal policy with no requests.
    pub fn new(id: usize) -> (s: TrafficSignal)
        ensures
            s@ == ts_fresh(id),
    {
        let s = TrafficSignal { id, requests: Vec::new(), accepted: Vec::new(), debug: false };
        proof {
            assert(s@ =~= ts_fresh(id));
        }
        s
    }

    /// One tick of this intersection: if an accepted agent lingers past its
    /// phase nothing is admitted; otherwise every green leader request is
    /// admitted, the rest are retained, with one event per admission.
    pub fn step(
        &mut self,
        events: &mut Vec<Event>,
        time: Tick,
        ts: &ControlTrafficSignal,
        info: &AgentInfo,
    )
        requires
            ts_wf(old(self)@),
            ts.wf(),
        ensures
            final(self)@ == ts_step_spec(old(self)@, *ts, *info, time).0,
            final(events)@ == old(events)@ + events_of(
                ts_step_spec(old(self)@, *ts, *info, time).1,
            ),
            ts_wf(final(self)@),
    {
        let ghost v0 = self@;
        let cr = ts.current_cycle_and_remaining_time(time);
        let cyc_idx = cr.0;
        assert(0 <= ts.current_cycle_index(time) < ts.cycles@.len());
        let cycle = &ts.cycles[cyc_idx];
        assert(*cycle == cycle_of(*ts, time));
        let ghost cyc = cycle_of(*ts, time);

        // Safety guard: freeze the tick while an accepted agent overruns.
        let nacc = self.accepted.len();
        let mut i: usize = 0;
        while i < nacc
            invariant
                i <= nacc,
                nacc == v0.accepted.len(),
                v0 == old(self)@,
                self@ == v0,
                ts_wf(v0),
                *cycle == cyc,
                cyc == cycle_of(*ts, time),
                forall|j: int|
                    0 <= j < i ==> cyc.contains_spec((#[trigger] v0.accepted[j]).1),
            decreases nacc - i,
        {
            let e = self.accepted[i];
            if !cycle.contains(e.1) {
                proof {
                    assert(!cyc.contains_spec(v0.accepted[i as int].1));
                    assert(ts_frozen(v0, cyc));
                    assert(events_of(Seq::<Request>::empty()) =~= Seq::<Event>::empty());
                    assert(old(events)@ + Seq::<Event>::empty() =~= old(events)@);
                }
                return;
            }
            i += 1;
        }
        proof {
            assert(!ts_frozen(v0, cyc));
        }

        // Admission pass over the pending requests, in sorted order.
        let ghost reqs0 = v0.requests;
        let ghost acc0 = v0.accepted;
        let mut kept: Vec<Request> = Vec::new();
        let mut admitted: Vec<Request> = Vec::new();
        let mut acc_new: Vec<(AgentID, TurnID)> = copy_acc_vec(&self.accepted);
        let nreq = self.requests.len();
        let mut i2: usize = 0;
        proof {
            assert(kept@ + ts_admit_from(reqs0, 0, acc_new@, cyc, *info).0
                =~= ts_admit_from(reqs0, 0, acc_new@, cyc, *info).0);
            assert(admitted@ + ts_admit_from(reqs0, 0, acc_new@, cyc, *info).2
                =~= ts_admit_from(reqs0, 0, acc_new@, cyc, *info).2);
        }
        while i2 < nreq
            invariant
                i2 <= nreq,
                nreq == reqs0.len(),
                self@ == v0,
                reqs0 == v0.requests,
                acc0 == v0.accepted,
                *cycle == cyc,
                sorted_acc(acc_new@),
                forall|a: int, b: int|
                    0 <= a < b < reqs0.len() ==> (#[trigger] reqs0[a]).agent != (
                    #[trigger] reqs0[b]).agent,
                forall|j: int| i2 <= j < nreq ==> !acc_has(acc_new@, (#[trigger] reqs0[j]).agent),
                ts_admit_from(reqs0, 0, acc0, cyc, *info) == (
                    kept@ + ts_admit_from(reqs0, i2 as int, acc_new@, cyc, *info).0,
                    ts_admit_from(reqs0, i2 as int, acc_new@, cyc, *info).1,
                    admitted@ + ts_admit_from(reqs0, i2 as int, acc_new@, cyc, *info).2,
                ),
            decreases nreq - i2,
        {
            let ghost i0 = i2 as int;
            let r = self.requests[i2];
            let mut adm_now = false;
            if cycle.contains(r.turn) {
                adm_now = info.is_leader(r.agent);
            }
            assert(adm_now == ts_admit_cond(cyc, *info, acc_new@, r));
            if adm_now {
                let ghost apre = acc_new@;
                let ghost adpre = admitted@;
                assert(!acc_has(apre, r.agent));
                acc_insert_vec(&mut acc_new, r.agent, r.turn);
                admitted.push(r);
                proof {
                    let sub = ts_admit_from(reqs0, i0 + 1, acc_new@, cyc, *info);
                    assert(ts_admit_from(reqs0, i0, apre, cyc, *info) == (
                        sub.0,
                        sub.1,
                        seq![r] + sub.2,
                    ));
                    assert(adpre + (seq![r] + sub.2) =~= admitted@ + sub.2);
                    assert forall|j: int| i0 + 1 <= j < nreq implies !acc_has(
                        acc_new@,
                        (#[trigger] reqs0[j]).agent,
                    ) by {
                        lemma_acc_insert_has(apre, r.agent, r.turn, reqs0[j].agent);
                    }
                }
            } else {
                let ghost kpre = kept@;
                kept.push(r);
                proof {
                    let sub = ts_admit_from(reqs0, i0 + 1, acc_new@, cyc, *info);
                    assert(ts_admit_from(reqs0, i0, acc_new@, cyc, *info) == (
                        seq![r] + sub.0,
                        sub.1,
                        sub.2,
                    ));
                    assert(kpre + (seq![r] + sub.0) =~= kept@ + sub.0);
                }
            }
            i2 += 1;
        }
        proof {
            assert(kept@ + Seq::<Request>::empty() =~= kept@);
            assert(admitted@ + Seq::<Request>::empty() =~= admitted@);
        }
        let ghost ad = ts_admit_from(reqs0, 0, acc0, cyc, *info);
        assert(ad.0 == kept@ && ad.1 == acc_new@ && ad.2 == admitted@);

        self.requests = kept;
        self.accepted = acc_new;
        push_admit_events(events, &admitted);

        proof {
            assert(self@ =~= ts_step_spec(v0, *ts, *info, time).0);
            lemma_ts_admit_kept_sorted(reqs0, 0, acc0, cyc, *info);
            assert forall|k: int| 0 <= k < self@.requests.len() implies (
            #[trigger] self@.requests[k]).turn.parent == self@.id by {
                assert(ad.0.contains(ad.0[k]));
                lemma_ts_admit_kept(reqs0, 0, acc0, cyc, *info, ad.0[k]);
                let j = choose|j: int| 0 <= j < reqs0.len() && #[trigger] reqs0[j] == ad.0[k];
            }
            assert forall|k: int| 0 <= k < self@.accepted.len() implies (
            #[trigger] self@.accepted[k]).1.parent == self@.id by {
                assert(ad.1.contains(ad.1[k]));
                lemma_ts_admit_grows(reqs0, 0, acc0, cyc, *info, ad.1[k]);
                if acc0.contains(ad.1[k]) {
                    let j = choose|j: int| 0 <= j < acc0.len() && acc0[j] == ad.1[k];
                } else {
                    let j = choose|j: int|
                        0 <= j < reqs0.len() && (#[trigger] reqs0[j]).agent == ad.1[k].0
                            && reqs0[j].turn == ad.1[k].1 && ad.2.contains(reqs0[j]);
                }
            }
            // One agent, one pending request, after the pass as before it.
            assert forall|a: int, b: int|
                0 <= a < b < self@.requests.len() implies (#[trigger] self@.requests[a]).agent
                != (#[trigger] self@.requests[b]).agent by {
                let x = self@.requests[a];
                let y = self@.requests[b];
                assert(req_lt(x, y));
                assert(ad.0.contains(x));
                assert(ad.0.contains(y));
                lemma_ts_admit_kept(reqs0, 0, acc0, cyc, *info, x);
                lemma_ts_admit_kept(reqs0, 0, acc0, cyc, *info, y);
                let ja = choose|j: int| 0 <= j < reqs0.len() && #[trigger] reqs0[j] == x;
                let jb = choose|j: int| 0 <= j < reqs0.len() && #[trigger] reqs0[j] == y;
                assert(ja != jb);
            }
            assert forall|k: int| 0 <= k < self@.requests.len() implies !acc_has(
                self@.accepted,
                (#[trigger] self@.requests[k]).agent,
            ) by {
                let x = self@.requests[k];
                assert(ad.0.contains(x));
                lemma_ts_admit_kept(reqs0, 0, acc0, cyc, *info, x);
                let jk = choose|j: int| 0 <= j < reqs0.len() && #[trigger] reqs0[j] == x;
                if acc_has(self@.accepted, x.agent) {
                    let mi = choose|mi: int| 0 <= mi < ad.1.len() && ad.1[mi].0 == x.agent;
                    assert(ad.1.contains(ad.1[mi]));
                    lemma_ts_admit_grows(reqs0, 0, acc0, cyc, *info, ad.1[mi]);
                    if acc0.contains(ad.1[mi]) {
                        let q = choose|q: int| 0 <= q < acc0.len() && acc0[q] == ad.1[mi];
                        assert(acc_has(acc0, x.agent));
                        assert(!acc_has(acc0, reqs0[jk].agent));
                        assert(false);
                    } else {
                        let j = choose|j: int|
                            0 <= j < reqs0.len() && (#[trigger] reqs0[j]).agent == ad.1[mi].0
                                && reqs0[j].turn == ad.1[mi].1 && ad.2.contains(reqs0[j]);
                        assert(j == jk) by {
                            if j != jk {
                                assert(reqs0[j].agent != reqs0[jk].agent);
                            }
                        }
                        lemma_ts_admit_partition(reqs0, 0, acc0, cyc, *info, x);
                        assert(false);
                    }
                }
            }
        }
    }
}

/// One intersection's policy: a tagged variant so that the whole state
/// serializes and matches exhaustively.
#[derive(PartialEq, Eq, Debug)]
pub enum IntersectionPolicy {
    StopSignPolicy(StopSign),
    TrafficSignalPolicy(TrafficSignal),
}

impl View for IntersectionPolicy {
    type V = PolicyView;

    open spec fn view(&self) -> PolicyView {
        match self {
            IntersectionPolicy::StopSignPolicy(p) => PolicyView::StopSign(p@),
            IntersectionPolicy::TrafficSignalPolicy(p) => PolicyView::TrafficSignal(p@),
        }
    }
}

impl IntersectionPolicy {
    /// The accepted map shared by both policy kinds.
    pub fn accepted(&self) -> (r: &Vec<(AgentID, TurnID)>)
        ensures
            r@ == policy_accepted(self@),
    {
        match self {
            IntersectionPolicy::StopSignPolicy(p) => &p.accepted,
            IntersectionPolicy::TrafficSignalPolicy(p) => &p.accepted,
        }
    }
}

} // verus!
