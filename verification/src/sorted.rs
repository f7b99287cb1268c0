//! Sorted sequences with unique keys, the backbone of every container the
//! policies persist. All state is kept in vectors sorted by the total orders
//! of `types`, so iteration order, admission order and serialized snapshots
//! are deterministic. The spec functions here define canonical insertion and
//! removal; the exec code elsewhere maintains sorted vectors and is proved to
//! produce exactly these canonical sequences.

use vstd::prelude::*;

use crate::types::{agent_lt, agent_lt_exec, req_lt, req_lt_exec, AgentID, Request, Tick, TurnID};

verus! {

/// The requests of `s` are strictly increasing.
pub open spec fn sorted_reqs(s: Seq<Request>) -> bool {
    forall|i: int, j: int| 0 <= i < j < s.len() ==> req_lt(s[i], s[j])
}

/// The request keys of `s` are strictly increasing.
pub open spec fn sorted_wait(s: Seq<(Request, Tick)>) -> bool {
    forall|i: int, j: int| 0 <= i < j < s.len() ==> req_lt(s[i].0, s[j].0)
}

/// The agent keys of `s` are strictly increasing.
pub open spec fn sorted_acc(s: Seq<(AgentID, TurnID)>) -> bool {
    forall|i: int, j: int| 0 <= i < j < s.len() ==> agent_lt(s[i].0, s[j].0)
}

/// Whether some entry of `s` is keyed by request `r`.
pub open spec fn wait_has(s: Seq<(Request, Tick)>, r: Request) -> bool {
    exists|i: int| 0 <= i < s.len() && s[i].0 == r
}

/// The tick stored for request `r`; meaningful only when `wait_has` holds
/// and the keys are unique.
pub open spec fn wait_at(s: Seq<(Request, Tick)>, r: Request) -> Tick {
    s[choose|i: int| 0 <= i < s.len() && s[i].0 == r].1
}

/// Whether some entry of `s` is keyed by agent `a`.
pub open spec fn acc_has(s: Seq<(AgentID, TurnID)>, a: AgentID) -> bool {
    exists|i: int| 0 <= i < s.len() && s[i].0 == a
}

/// The turn stored for agent `a`; meaningful only when `acc_has` holds and
/// the keys are unique.
pub open spec fn acc_at(s: Seq<(AgentID, TurnID)>, a: AgentID) -> TurnID {
    s[choose|i: int| 0 <= i < s.len() && s[i].0 == a].1
}

/// Canonical sorted insertion of a request; inserting a present request
/// leaves the sequence unchanged.
pub open spec fn reqset_insert(s: Seq<Request>, r: Request) -> Seq<Request>
    decreases s.len(),
{
    if s.len() == 0 {
        seq![r]
    } else if req_lt(r, s[0]) {
        seq![r] + s
    } else if r == s[0] {
        s
    } else {
        seq![s[0]] + reqset_insert(s.drop_first(), r)
    }
}

/// Canonical sorted insertion of a waiting entry; a present key leaves the
/// sequence unchanged (the policies only ever insert fresh keys).
pub open spec fn wait_insert(s: Seq<(Request, Tick)>, r: Request, t: Tick) -> Seq<(Request, Tick)>
    decreases s.len(),
{
    if s.len() == 0 {
        seq![(r, t)]
    } else if req_lt(r, s[0].0) {
        seq![(r, t)] + s
    } else if r == s[0].0 {
        s
    } else {
        seq![s[0]] + wait_insert(s.drop_first(), r, t)
    }
}

/// Canonical sorted insertion of an accepted entry; a present key leaves
/// the sequence unchanged (the policies only ever insert fresh keys).
pub open spec fn acc_insert(s: Seq<(AgentID, TurnID)>, a: AgentID, t: TurnID) -> Seq<
    (AgentID, TurnID),
>
    decreases s.len(),
{
    if s.len() == 0 {
        seq![(a, t)]
    } else if agent_lt(a, s[0].0) {
        seq![(a, t)] + s
    } else if a == s[0].0 {
        s
    } else {
        seq![s[0]] + acc_insert(s.drop_first(), a, t)
    }
}

/// Canonical removal of the entry keyed by agent `a`, if any.
pub open spec fn acc_remove(s: Seq<(AgentID, TurnID)>, a: AgentID) -> Seq<(AgentID, TurnID)>
    decreases s.len(),
{
    if s.len() == 0 {
        s
    } else if s[0].0 == a {
        s.drop_first()
    } else {
        seq![s[0]] + acc_remove(s.drop_first(), a)
    }
}

/// With strictly increasing keys, the entry found for the key of index `i`
/// is entry `i` itself.
pub proof fn lemma_wait_at(s: Seq<(Request, Tick)>, i: int)
    requires
        sorted_wait(s),
        0 <= i < s.len(),
    ensures
        wait_has(s, s[i].0),
        wait_at(s, s[i].0) == s[i].1,
{
    assert(wait_has(s, s[i].0));
    let j = choose|j: int| 0 <= j < s.len() && s[j].0 == s[i].0;
    if i < j {
        assert(req_lt(s[i].0, s[j].0));
        assert(false);
    }
    if j < i {
        assert(req_lt(s[j].0, s[i].0));
        assert(false);
    }
}

/// With strictly increasing keys, the entry found for the key of index `i`
/// is entry `i` itself.
pub proof fn lemma_acc_at(s: Seq<(AgentID, TurnID)>, i: int)
    requires
        sorted_acc(s),
        0 <= i < s.len(),
    ensures
        acc_has(s, s[i].0),
        acc_at(s, s[i].0) == s[i].1,
{
    assert(acc_has(s, s[i].0));
    let j = choose|j: int| 0 <= j < s.len() && s[j].0 == s[i].0;
    if i < j {
        assert(agent_lt(s[i].0, s[j].0));
        assert(false);
    }
    if j < i {
        assert(agent_lt(s[j].0, s[i].0));
        assert(false);
    }
}

/// `x` is a member of the insertion result exactly when it was a member
/// before or is the inserted request.
pub proof fn lemma_reqset_insert_membership(s: Seq<Request>, r: Request, x: Request)
    ensures
        reqset_insert(s, r).contains(x) <==> (s.contains(x) || x == r),
    decreases s.len(),
{
    let out = reqset_insert(s, r);
    if s.len() == 0 {
        if x == r {
            assert(out[0] == x);
        }
        if out.contains(x) {
            let i = choose|i: int| 0 <= i < out.len() && out[i] == x;
            assert(x == r);
        }
    } else if req_lt(r, s[0]) {
        if x == r {
            assert(out[0] == x);
        }
        if s.contains(x) {
            let i = choose|i: int| 0 <= i < s.len() && s[i] == x;
            assert(out[i + 1] == x);
        }
        if out.contains(x) {
            let i = choose|i: int| 0 <= i < out.len() && out[i] == x;
            if i > 0 {
                assert(s[i - 1] == x);
                assert(s.contains(x));
            }
        }
    } else if r == s[0] {
        if x == r {
            assert(s[0] == x);
            assert(s.contains(x));
        }
    } else {
        lemma_reqset_insert_membership(s.drop_first(), r, x);
        let rest = reqset_insert(s.drop_first(), r);
        assert(out == seq![s[0]] + rest);
        if s.contains(x) {
            let i = choose|i: int| 0 <= i < s.len() && s[i] == x;
            if i == 0 {
                assert(out[0] == x);
            } else {
                assert(s.drop_first()[i - 1] == x);
                assert(s.drop_first().contains(x));
                let j = choose|j: int| 0 <= j < rest.len() && rest[j] == x;
                assert(out[j + 1] == x);
            }
        }
        if x == r {
            let j = choose|j: int| 0 <= j < rest.len() && rest[j] == x;
            assert(out[j + 1] == x);
        }
        if out.contains(x) {
            let i = choose|i: int| 0 <= i < out.len() && out[i] == x;
            if i == 0 {
                assert(s[0] == x);
                assert(s.contains(x));
            } else {
                assert(rest[i - 1] == x);
                assert(rest.contains(x));
                if s.drop_first().contains(x) {
                    let k = choose|k: int| 0 <= k < s.drop_first().len() && s.drop_first()[k]
                        == x;
                    assert(s[k + 1] == x);
                    assert(s.contains(x));
                }
            }
        }
    }
}

/// Insertion keeps a sorted request set sorted.
pub proof fn lemma_reqset_insert_sorted(s: Seq<Request>, r: Request)
    requires
        sorted_reqs(s),
    ensures
        sorted_reqs(reqset_insert(s, r)),
    decreases s.len(),
{
    let out = reqset_insert(s, r);
    if s.len() == 0 {
    } else if req_lt(r, s[0]) {
        assert forall|i: int, j: int| 0 <= i < j < out.len() implies req_lt(out[i], out[j]) by {
            if i == 0 {
                assert(out[j] == s[j - 1]);
                if j > 1 {
                    assert(req_lt(s[0], s[j - 1]));
                }
            } else {
                assert(out[i] == s[i - 1] && out[j] == s[j - 1]);
            }
        }
    } else if r == s[0] {
    } else {
        lemma_reqset_insert_sorted(s.drop_first(), r);
        let rest = reqset_insert(s.drop_first(), r);
        assert(out == seq![s[0]] + rest);
        assert forall|i: int, j: int| 0 <= i < j < out.len() implies req_lt(out[i], out[j]) by {
            if i == 0 {
                let x = rest[j - 1];
                assert(rest.contains(x));
                lemma_reqset_insert_membership(s.drop_first(), r, x);
                if s.drop_first().contains(x) {
                    let k = choose|k: int| 0 <= k < s.drop_first().len() && s.drop_first()[k]
                        == x;
                    assert(s[k + 1] == x);
                    assert(req_lt(s[0], x));
                } else {
                    assert(x == r);
                }
            } else {
                assert(req_lt(rest[i - 1], rest[j - 1]));
            }
        }
    }
}

/// `p` is an entry of the insertion result exactly when it was one before
/// or is the inserted entry; the key must be fresh.
pub proof fn lemma_wait_insert_membership(
    s: Seq<(Request, Tick)>,
    r: Request,
    t: Tick,
    p: (Request, Tick),
)
    requires
        !wait_has(s, r),
    ensures
        wait_insert(s, r, t).contains(p) <==> (s.contains(p) || p == (r, t)),
    decreases s.len(),
{
    let out = wait_insert(s, r, t);
    if s.len() == 0 {
        if p == (r, t) {
            assert(out[0] == p);
        }
        if out.contains(p) {
            let i = choose|i: int| 0 <= i < out.len() && out[i] == p;
            assert(p == (r, t));
        }
    } else if req_lt(r, s[0].0) {
        if p == (r, t) {
            assert(out[0] == p);
        }
        if s.contains(p) {
            let i = choose|i: int| 0 <= i < s.len() && s[i] == p;
            assert(out[i + 1] == p);
        }
        if out.contains(p) {
            let i = choose|i: int| 0 <= i < out.len() && out[i] == p;
            if i > 0 {
                assert(s[i - 1] == p);
                assert(s.contains(p));
            }
        }
    } else if r == s[0].0 {
        assert(false);
    } else {
        assert(!wait_has(s.drop_first(), r)) by {
            if wait_has(s.drop_first(), r) {
                let i = choose|i: int| 0 <= i < s.drop_first().len() && s.drop_first()[i].0 == r;
                assert(s[i + 1].0 == r);
                assert(wait_has(s, r));
            }
        }
        lemma_wait_insert_membership(s.drop_first(), r, t, p);
        let rest = wait_insert(s.drop_first(), r, t);
        assert(out == seq![s[0]] + rest);
        if s.contains(p) {
            let i = choose|i: int| 0 <= i < s.len() && s[i] == p;
            if i == 0 {
                assert(out[0] == p);
            } else {
                assert(s.drop_first()[i - 1] == p);
                assert(s.drop_first().contains(p));
                let j = choose|j: int| 0 <= j < rest.len() && rest[j] == p;
                assert(out[j + 1] == p);
            }
        }
        if p == (r, t) {
            let j = choose|j: int| 0 <= j < rest.len() && rest[j] == p;
            assert(out[j + 1] == p);
        }
        if out.contains(p) {
            let i = choose|i: int| 0 <= i < out.len() && out[i] == p;
            if i == 0 {
                assert(s[0] == p);
                assert(s.contains(p));
            } else {
                assert(rest[i - 1] == p);
                assert(rest.contains(p));
                if s.drop_first().contains(p) {
                    let k = choose|k: int| 0 <= k < s.drop_first().len() && s.drop_first()[k]
                        == p;
                    assert(s[k + 1] == p);
                    assert(s.contains(p));
                }
            }
        }
    }
}

/// Insertion of a fresh key keeps a sorted waiting map sorted.
pub proof fn lemma_wait_insert_sorted(s: Seq<(Request, Tick)>, r: Request, t: Tick)
    requires
        sorted_wait(s),
        !wait_has(s, r),
    ensures
        sorted_wait(wait_insert(s, r, t)),
    decreases s.len(),
{
    let out = wait_insert(s, r, t);
    if s.len() == 0 {
    } else if req_lt(r, s[0].0) {
        assert forall|i: int, j: int| 0 <= i < j < out.len() implies req_lt(out[i].0, out[j].0) by {
            if i == 0 {
                assert(out[j] == s[j - 1]);
                if j > 1 {
                    assert(req_lt(s[0].0, s[j - 1].0));
                }
            } else {
                assert(out[i] == s[i - 1] && out[j] == s[j - 1]);
            }
        }
    } else if r == s[0].0 {
        assert(false);
    } else {
        assert(!wait_has(s.drop_first(), r)) by {
            if wait_has(s.drop_first(), r) {
                let i = choose|i: int| 0 <= i < s.drop_first().len() && s.drop_first()[i].0 == r;
                assert(s[i + 1].0 == r);
                assert(wait_has(s, r));
            }
        }
        lemma_wait_insert_sorted(s.drop_first(), r, t);
        let rest = wait_insert(s.drop_first(), r, t);
        assert(out == seq![s[0]] + rest);
        assert forall|i: int, j: int| 0 <= i < j < out.len() implies req_lt(out[i].0, out[j].0) by {
            if i == 0 {
                let p = rest[j - 1];
                assert(rest.contains(p));
                lemma_wait_insert_membership(s.drop_first(), r, t, p);
                if s.drop_first().contains(p) {
                    let k = choose|k: int| 0 <= k < s.drop_first().len() && s.drop_first()[k]
                        == p;
                    assert(s[k + 1] == p);
                    assert(req_lt(s[0].0, p.0));
                } else {
                    assert(p == (r, t));
                }
            } else {
                assert(req_lt(rest[i - 1].0, rest[j - 1].0));
            }
        }
    }
}

/// `p` is an entry of the insertion result exactly when it was one before
/// or is the inserted entry; the key must be fresh.
pub proof fn lemma_acc_insert_membership(
    s: Seq<(AgentID, TurnID)>,
    a: AgentID,
    t: TurnID,
    p: (AgentID, TurnID),
)
    requires
        !acc_has(s, a),
    ensures
        acc_insert(s, a, t).contains(p) <==> (s.contains(p) || p == (a, t)),
    decreases s.len(),
{
    let out = acc_insert(s, a, t);
    if s.len() == 0 {
        if p == (a, t) {
            assert(out[0] == p);
        }
        if out.contains(p) {
            let i = choose|i: int| 0 <= i < out.len() && out[i] == p;
            assert(p == (a, t));
        }
    } else if agent_lt(a, s[0].0) {
        if p == (a, t) {
            assert(out[0] == p);
        }
        if s.contains(p) {
            let i = choose|i: int| 0 <= i < s.len() && s[i] == p;
            assert(out[i + 1] == p);
        }
        if out.contains(p) {
            let i = choose|i: int| 0 <= i < out.len() && out[i] == p;
            if i > 0 {
                assert(s[i - 1] == p);
                assert(s.contains(p));
            }
        }
    } else if a == s[0].0 {
        assert(false);
    } else {
        assert(!acc_has(s.drop_first(), a)) by {
            if acc_has(s.drop_first(), a) {
                let i = choose|i: int| 0 <= i < s.drop_first().len() && s.drop_first()[i].0 == a;
                assert(s[i + 1].0 == a);
                assert(acc_has(s, a));
            }
        }
        lemma_acc_insert_membership(s.drop_first(), a, t, p);
        let rest = acc_insert(s.drop_first(), a, t);
        assert(out == seq![s[0]] + rest);
        if s.contains(p) {
            let i = choose|i: int| 0 <= i < s.len() && s[i] == p;
            if i == 0 {
                assert(out[0] == p);
            } else {
                assert(s.drop_first()[i - 1] == p);
                assert(s.drop_first().contains(p));
                let j = choose|j: int| 0 <= j < rest.len() && rest[j] == p;
                assert(out[j + 1] == p);
            }
        }
        if p == (a, t) {
            let j = choose|j: int| 0 <= j < rest.len() && rest[j] == p;
            assert(out[j + 1] == p);
        }
        if out.contains(p) {
            let i = choose|i: int| 0 <= i < out.len() && out[i] == p;
            if i == 0 {
                assert(s[0] == p);
                assert(s.contains(p));
            } else {
                assert(rest[i - 1] == p);
                assert(rest.contains(p));
                if s.drop_first().contains(p) {
                    let k = choose|k: int| 0 <= k < s.drop_first().len() && s.drop_first()[k]
                        == p;
                    assert(s[k + 1] == p);
                    assert(s.contains(p));
                }
            }
        }
    }
}

/// Insertion of a fresh key keeps a sorted accepted map sorted.
pub proof fn lemma_acc_insert_sorted(s: Seq<(AgentID, TurnID)>, a: AgentID, t: TurnID)
    requires
        sorted_acc(s),
        !acc_has(s, a),
    ensures
        sorted_acc(acc_insert(s, a, t)),
    decreases s.len(),
{
    let out = acc_insert(s, a, t);
    if s.len() == 0 {
    } else if agent_lt(a, s[0].0) {
        assert forall|i: int, j: int| 0 <= i < j < out.len() implies agent_lt(
            out[i].0,
            out[j].0,
        ) by {
            if i == 0 {
                assert(out[j] == s[j - 1]);
                if j > 1 {
                    assert(agent_lt(s[0].0, s[j - 1].0));
                }
            } else {
                assert(out[i] == s[i - 1] && out[j] == s[j - 1]);
            }
        }
    } else if a == s[0].0 {
        assert(false);
    } else {
        assert(!acc_has(s.drop_first(), a)) by {
            if acc_has(s.drop_first(), a) {
                let i = choose|i: int| 0 <= i < s.drop_first().len() && s.drop_first()[i].0 == a;
                assert(s[i + 1].0 == a);
                assert(acc_has(s, a));
            }
        }
        lemma_acc_insert_sorted(s.drop_first(), a, t);
        let rest = acc_insert(s.drop_first(), a, t);
        assert(out == seq![s[0]] + rest);
        assert forall|i: int, j: int| 0 <= i < j < out.len() implies agent_lt(
            out[i].0,
            out[j].0,
        ) by {
            if i == 0 {
                let p = rest[j - 1];
                assert(rest.contains(p));
                lemma_acc_insert_membership(s.drop_first(), a, t, p);
                if s.drop_first().contains(p) {
                    let k = choose|k: int| 0 <= k < s.drop_first().len() && s.drop_first()[k]
                        == p;
                    assert(s[k + 1] == p);
                    assert(agent_lt(s[0].0, p.0));
                } else {
                    assert(p == (a, t));
                }
            } else {
                assert(agent_lt(rest[i - 1].0, rest[j - 1].0));
            }
        }
    }
}

/// `p` is an entry of the removal result exactly when it was one before and
/// is not keyed by the removed agent.
pub proof fn lemma_acc_remove_membership(s: Seq<(AgentID, TurnID)>, a: AgentID, p: (AgentID, TurnID))
    requires
        sorted_acc(s),
    ensures
        acc_remove(s, a).contains(p) <==> (s.contains(p) && p.0 != a),
    decreases s.len(),
{
    let out = acc_remove(s, a);
    if s.len() == 0 {
    } else if s[0].0 == a {
        assert(out == s.drop_first());
        if out.contains(p) {
            let i = choose|i: int| 0 <= i < out.len() && out[i] == p;
            assert(s[i + 1] == p);
            assert(s.contains(p));
            assert(agent_lt(s[0].0, s[i + 1].0));
        }
        if s.contains(p) && p.0 != a {
            let i = choose|i: int| 0 <= i < s.len() && s[i] == p;
            assert(out[i - 1] == p);
        }
    } else {
        lemma_acc_remove_membership(s.drop_first(), a, p);
        let rest = acc_remove(s.drop_first(), a);
        assert(out == seq![s[0]] + rest);
        if out.contains(p) {
            let i = choose|i: int| 0 <= i < out.len() && out[i] == p;
            if i == 0 {
                assert(s[0] == p);
                assert(s.contains(p));
            } else {
                assert(rest[i - 1] == p);
                assert(rest.contains(p));
                let k = choose|k: int| 0 <= k < s.drop_first().len() && s.drop_first()[k] == p;
                assert(s[k + 1] == p);
                assert(s.contains(p));
            }
        }
        if s.contains(p) && p.0 != a {
            let i = choose|i: int| 0 <= i < s.len() && s[i] == p;
            if i == 0 {
                assert(out[0] == p);
            } else {
                assert(s.drop_first()[i - 1] == p);
                assert(s.drop_first().contains(p));
                let j = choose|j: int| 0 <= j < rest.len() && rest[j] == p;
                assert(out[j + 1] == p);
            }
        }
    }
}

/// Removal keeps a sorted accepted map sorted.
pub proof fn lemma_acc_remove_sorted(s: Seq<(AgentID, TurnID)>, a: AgentID)
    requires
        sorted_acc(s),
    ensures
        sorted_acc(acc_remove(s, a)),
    decreases s.len(),
{
    let out = acc_remove(s, a);
    if s.len() == 0 {
    } else if s[0].0 == a {
    } else {
        lemma_acc_remove_sorted(s.drop_first(), a);
        let rest = acc_remove(s.drop_first(), a);
        assert(out == seq![s[0]] + rest);
        assert forall|i: int, j: int| 0 <= i < j < out.len() implies agent_lt(
            out[i].0,
            out[j].0,
        ) by {
            if i == 0 {
                let p = rest[j - 1];
                assert(rest.contains(p));
                lemma_acc_remove_membership(s.drop_first(), a, p);
                let k = choose|k: int| 0 <= k < s.drop_first().len() && s.drop_first()[k] == p;
                assert(s[k + 1] == p);
                assert(agent_lt(s[0].0, p.0));
            } else {
                assert(agent_lt(rest[i - 1].0, rest[j - 1].0));
            }
        }
    }
}

/// Two sorted request sets with the same members are the same sequence.
pub proof fn lemma_sorted_reqs_canonical(s1: Seq<Request>, s2: Seq<Request>)
    requires
        sorted_reqs(s1),
        sorted_reqs(s2),
        forall|x: Request| s1.contains(x) <==> s2.contains(x),
    ensures
        s1 =~= s2,
    decreases s1.len(),
{
    if s1.len() == 0 {
        if s2.len() > 0 {
            assert(s2.contains(s2[0]));
        }
    } else if s2.len() == 0 {
        assert(s1.contains(s1[0]));
    } else {
        // The heads are each set's strict minimum, so they are equal.
        assert(s1.contains(s1[0]));
        assert(s2.contains(s2[0]));
        let i = choose|i: int| 0 <= i < s2.len() && s2[i] == s1[0];
        let j = choose|j: int| 0 <= j < s1.len() && s1[j] == s2[0];
        if i > 0 {
            assert(req_lt(s2[0], s2[i]));
            if j > 0 {
                assert(req_lt(s1[0], s1[j]));
                assert(false);
            }
            assert(false);
        }
        assert(s1[0] == s2[0]);
        let t1 = s1.drop_first();
        let t2 = s2.drop_first();
        assert forall|x: Request| t1.contains(x) implies t2.contains(x) by {
            let k = choose|k: int| 0 <= k < t1.len() && t1[k] == x;
            assert(s1[k + 1] == x);
            assert(s1.contains(x));
            assert(req_lt(s1[0], x));
            assert(s2.contains(x));
            let m = choose|m: int| 0 <= m < s2.len() && s2[m] == x;
            assert(m > 0) by {
                if m == 0 {
                    assert(req_lt(x, x));
                }
            }
            assert(t2[m - 1] == x);
        }
        assert forall|x: Request| t2.contains(x) implies t1.contains(x) by {
            let k = choose|k: int| 0 <= k < t2.len() && t2[k] == x;
            assert(s2[k + 1] == x);
            assert(s2.contains(x));
            assert(req_lt(s2[0], x));
            assert(s1.contains(x));
            let m = choose|m: int| 0 <= m < s1.len() && s1[m] == x;
            assert(m > 0) by {
                if m == 0 {
                    assert(req_lt(x, x));
                }
            }
            assert(t1[m - 1] == x);
        }
        lemma_sorted_reqs_canonical(t1, t2);
        assert(s1 =~= seq![s1[0]] + t1);
        assert(s2 =~= seq![s2[0]] + t2);
    }
}

/// Where every key before `k` is below the new request and the key at `k`
/// (if any) is above it, canonical insertion is insertion at `k`.
pub proof fn lemma_reqset_insert_at(s: Seq<Request>, r: Request, k: int)
    requires
        sorted_reqs(s),
        0 <= k <= s.len(),
        forall|j: int| 0 <= j < k ==> req_lt(s[j], r),
        k < s.len() ==> req_lt(r, s[k]),
    ensures
        reqset_insert(s, r) == s.insert(k, r),
    decreases s.len(),
{
    if s.len() == 0 {
        assert(reqset_insert(s, r) =~= s.insert(0, r));
    } else if k == 0 {
        assert(req_lt(r, s[0]));
        assert(s.insert(0, r) =~= seq![r] + s);
    } else {
        assert(req_lt(s[0], r));
        lemma_reqset_insert_at(s.drop_first(), r, k - 1);
        assert(s.insert(k, r) =~= seq![s[0]] + s.drop_first().insert(k - 1, r));
    }
}

/// Inserting a request that is already present changes nothing.
pub proof fn lemma_reqset_insert_present(s: Seq<Request>, r: Request, i: int)
    requires
        sorted_reqs(s),
        0 <= i < s.len(),
        s[i] == r,
    ensures
        reqset_insert(s, r) == s,
    decreases s.len(),
{
    if i == 0 {
    } else {
        assert(req_lt(s[0], r));
        assert(s.drop_first()[i - 1] == r);
        lemma_reqset_insert_present(s.drop_first(), r, i - 1);
        assert(seq![s[0]] + s.drop_first() =~= s);
    }
}

/// Where every key before `k` is below the new key and the key at `k` (if
/// any) is above it, canonical insertion is insertion at `k`.
pub proof fn lemma_wait_insert_at(s: Seq<(Request, Tick)>, r: Request, t: Tick, k: int)
    requires
        sorted_wait(s),
        0 <= k <= s.len(),
        forall|j: int| 0 <= j < k ==> req_lt(s[j].0, r),
        k < s.len() ==> req_lt(r, s[k].0),
    ensures
        wait_insert(s, r, t) == s.insert(k, (r, t)),
    decreases s.len(),
{
    if s.len() == 0 {
        assert(wait_insert(s, r, t) =~= s.insert(0, (r, t)));
    } else if k == 0 {
        assert(req_lt(r, s[0].0));
        assert(s.insert(0, (r, t)) =~= seq![(r, t)] + s);
    } else {
        assert(req_lt(s[0].0, r));
        lemma_wait_insert_at(s.drop_first(), r, t, k - 1);
        assert(s.insert(k, (r, t)) =~= seq![s[0]] + s.drop_first().insert(k - 1, (r, t)));
    }
}

/// Where every key before `k` is below the new key and the key at `k` (if
/// any) is above it, canonical insertion is insertion at `k`.
pub proof fn lemma_acc_insert_at(s: Seq<(AgentID, TurnID)>, a: AgentID, t: TurnID, k: int)
    requires
        sorted_acc(s),
        0 <= k <= s.len(),
        forall|j: int| 0 <= j < k ==> agent_lt(s[j].0, a),
        k < s.len() ==> agent_lt(a, s[k].0),
    ensures
        acc_insert(s, a, t) == s.insert(k, (a, t)),
    decreases s.len(),
{
    if s.len() == 0 {
        assert(acc_insert(s, a, t) =~= s.insert(0, (a, t)));
    } else if k == 0 {
        assert(agent_lt(a, s[0].0));
        assert(s.insert(0, (a, t)) =~= seq![(a, t)] + s);
    } else {
        assert(agent_lt(s[0].0, a));
        lemma_acc_insert_at(s.drop_first(), a, t, k - 1);
        assert(s.insert(k, (a, t)) =~= seq![s[0]] + s.drop_first().insert(k - 1, (a, t)));
    }
}

/// Canonical removal of the key found at index `k` is removal of index `k`.
pub proof fn lemma_acc_remove_at(s: Seq<(AgentID, TurnID)>, a: AgentID, k: int)
    requires
        sorted_acc(s),
        0 <= k < s.len(),
        s[k].0 == a,
    ensures
        acc_remove(s, a) == s.remove(k),
    decreases s.len(),
{
    if k == 0 {
        assert(s.drop_first() =~= s.remove(0));
    } else {
        assert(agent_lt(s[0].0, a));
        assert(s.drop_first()[k - 1].0 == a);
        lemma_acc_remove_at(s.drop_first(), a, k - 1);
        assert(s.remove(k) =~= seq![s[0]] + s.drop_first().remove(k - 1));
    }
}

/// Removing an absent key changes nothing.
pub proof fn lemma_acc_remove_absent(s: Seq<(AgentID, TurnID)>, a: AgentID)
    requires
        !acc_has(s, a),
    ensures
        acc_remove(s, a) == s,
    decreases s.len(),
{
    if s.len() == 0 {
    } else {
        assert(s[0].0 != a);
        assert(!acc_has(s.drop_first(), a)) by {
            if acc_has(s.drop_first(), a) {
                let i = choose|i: int| 0 <= i < s.drop_first().len() && s.drop_first()[i].0 == a;
                assert(s[i + 1].0 == a);
                assert(acc_has(s, a));
            }
        }
        lemma_acc_remove_absent(s.drop_first(), a);
        assert(seq![s[0]] + s.drop_first() =~= s);
    }
}

/// Inserts a request into a sorted vector, keeping it sorted; inserting a
/// present request is a no-op.
pub fn reqset_insert_vec(v: &mut Vec<Request>, r: Request)
    requires
        sorted_reqs(old(v)@),
    ensures
        final(v)@ == reqset_insert(old(v)@, r),
        sorted_reqs(final(v)@),
{
    proof {
        lemma_reqset_insert_sorted(old(v)@, r);
    }
    let n = v.len();
    let mut i: usize = 0;
    while i < n
        invariant
            i <= n,
            n == v@.len(),
            v@ == old(v)@,
            sorted_reqs(v@),
            forall|j: int| 0 <= j < i ==> req_lt(v@[j], r),
        decreases n - i,
    {
        let x = v[i];
        if !req_lt_exec(x, r) {
            if x == r {
                proof {
                    lemma_reqset_insert_present(v@, r, i as int);
                }
                return;
            }
            assert(req_lt(r, v@[i as int]));
            proof {
                lemma_reqset_insert_at(v@, r, i as int);
                lemma_reqset_insert_sorted(v@, r);
            }
            v.insert(i, r);
            return;
        }
        i += 1;
    }
    proof {
        lemma_reqset_insert_at(v@, r, n as int);
        lemma_reqset_insert_sorted(v@, r);
        assert(v@.insert(n as int, r) =~= v@.push(r));
    }
    v.push(r);
}

/// Inserts a fresh waiting entry into a sorted vector, keeping it sorted.
pub fn wait_insert_vec(v: &mut Vec<(Request, Tick)>, r: Request, t: Tick)
    requires
        sorted_wait(old(v)@),
        !wait_has(old(v)@, r),
    ensures
        final(v)@ == wait_insert(old(v)@, r, t),
        sorted_wait(final(v)@),
{
    proof {
        lemma_wait_insert_sorted(old(v)@, r, t);
    }
    let n = v.len();
    let mut i: usize = 0;
    while i < n
        invariant
            i <= n,
            n == v@.len(),
            v@ == old(v)@,
            sorted_wait(v@),
            !wait_has(v@, r),
            forall|j: int| 0 <= j < i ==> req_lt(v@[j].0, r),
        decreases n - i,
    {
        let (x, _y) = v[i];
        if !req_lt_exec(x, r) {
            assert(x != r) by {
                if v@[i as int].0 == r {
                    assert(wait_has(v@, r));
                }
            }
            assert(req_lt(r, v@[i as int].0));
            proof {
                lemma_wait_insert_at(v@, r, t, i as int);
                lemma_wait_insert_sorted(v@, r, t);
            }
            v.insert(i, (r, t));
            return;
        }
        i += 1;
    }
    proof {
        lemma_wait_insert_at(v@, r, t, n as int);
        lemma_wait_insert_sorted(v@, r, t);
        assert(v@.insert(n as int, (r, t)) =~= v@.push((r, t)));
    }
    v.push((r, t));
}

/// Inserts a fresh accepted entry into a sorted vector, keeping it sorted.
pub fn acc_insert_vec(v: &mut Vec<(AgentID, TurnID)>, a: AgentID, t: TurnID)
    requires
        sorted_acc(old(v)@),
        !acc_has(old(v)@, a),
    ensures
        final(v)@ == acc_insert(old(v)@, a, t),
        sorted_acc(final(v)@),
{
    proof {
        lemma_acc_insert_sorted(old(v)@, a, t);
    }
    let n = v.len();
    let mut i: usize = 0;
    while i < n
        invariant
            i <= n,
            n == v@.len(),
            v@ == old(v)@,
            sorted_acc(v@),
            !acc_has(v@, a),
            forall|j: int| 0 <= j < i ==> agent_lt(v@[j].0, a),
        decreases n - i,
    {
        let (x, _y) = v[i];
        if !agent_lt_exec(x, a) {
            assert(x != a) by {
                if v@[i as int].0 == a {
                    assert(acc_has(v@, a));
                }
            }
            assert(agent_lt(a, v@[i as int].0));
            proof {
                lemma_acc_insert_at(v@, a, t, i as int);
                lemma_acc_insert_sorted(v@, a, t);
            }
            v.insert(i, (a, t));
            return;
        }
        i += 1;
    }
    proof {
        lemma_acc_insert_at(v@, a, t, n as int);
        lemma_acc_insert_sorted(v@, a, t);
        assert(v@.insert(n as int, (a, t)) =~= v@.push((a, t)));
    }
    v.push((a, t));
}

/// Removes the entry keyed by agent `a`, if present, keeping the vector
/// sorted.
pub fn acc_remove_vec(v: &mut Vec<(AgentID, TurnID)>, a: AgentID)
    requires
        sorted_acc(old(v)@),
    ensures
        final(v)@ == acc_remove(old(v)@, a),
        sorted_acc(final(v)@),
{
    proof {
        lemma_acc_remove_sorted(old(v)@, a);
    }
    let n = v.len();
    let mut i: usize = 0;
    while i < n
        invariant
            i <= n,
            n == v@.len(),
            v@ == old(v)@,
            sorted_acc(v@),
            forall|j: int| 0 <= j < i ==> v@[j].0 != a,
        decreases n - i,
    {
        let (x, _y) = v[i];
        if x == a {
            proof {
                lemma_acc_remove_at(v@, a, i as int);
                lemma_acc_remove_sorted(v@, a);
            }
            v.remove(i);
            return;
        }
        i += 1;
    }
    proof {
        assert(!acc_has(v@, a));
        lemma_acc_remove_absent(v@, a);
    }
}

/// Looks the turn granted to agent `a` up in a sorted accepted vector.
pub fn acc_find_vec(v: &Vec<(AgentID, TurnID)>, a: AgentID) -> (r: Option<TurnID>)
    requires
        sorted_acc(v@),
    ensures
        match r {
            Option::Some(t) => acc_has(v@, a) && acc_at(v@, a) == t,
            Option::None => !acc_has(v@, a),
        },
{
    let n = v.len();
    let mut i: usize = 0;
    while i < n
        invariant
            i <= n,
            n == v@.len(),
            sorted_acc(v@),
            forall|j: int| 0 <= j < i ==> v@[j].0 != a,
        decreases n - i,
    {
        let (x, t) = v[i];
        if x == a {
            proof {
                lemma_acc_at(v@, i as int);
            }
            return Option::Some(t);
        }
        i += 1;
    }
    Option::None
}


/// Membership in a sequence with one element prepended.
pub proof fn lemma_cons_contains<T>(h: T, rest: Seq<T>, x: T)
    ensures
        (seq![h] + rest).contains(x) <==> (x == h || rest.contains(x)),
{
    let s = seq![h] + rest;
    if s.contains(x) {
        let i = choose|i: int| 0 <= i < s.len() && s[i] == x;
        if i > 0 {
            assert(rest[i - 1] == x);
            assert(rest.contains(x));
        }
    }
    if x == h {
        assert(s[0] == x);
    }
    if rest.contains(x) {
        let i = choose|i: int| 0 <= i < rest.len() && rest[i] == x;
        assert(s[i + 1] == x);
    }
}

/// Key membership after inserting a fresh waiting key.
pub proof fn lemma_wait_insert_has(s: Seq<(Request, Tick)>, r: Request, t: Tick, q: Request)
    requires
        !wait_has(s, r),
    ensures
        wait_has(wait_insert(s, r, t), q) <==> (wait_has(s, q) || q == r),
{
    let out = wait_insert(s, r, t);
    if wait_has(out, q) {
        let i = choose|i: int| 0 <= i < out.len() && out[i].0 == q;
        lemma_wait_insert_membership(s, r, t, out[i]);
        assert(out.contains(out[i]));
        if s.contains(out[i]) {
            let j = choose|j: int| 0 <= j < s.len() && s[j] == out[i];
            assert(wait_has(s, q));
        } else {
            assert(out[i] == (r, t));
        }
    }
    if wait_has(s, q) {
        let i = choose|i: int| 0 <= i < s.len() && s[i].0 == q;
        lemma_wait_insert_membership(s, r, t, s[i]);
        assert(s.contains(s[i]));
        let j = choose|j: int| 0 <= j < out.len() && out[j] == s[i];
        assert(wait_has(out, q));
    }
    if q == r {
        lemma_wait_insert_membership(s, r, t, (r, t));
        let j = choose|j: int| 0 <= j < out.len() && out[j] == (r, t);
        assert(wait_has(out, q));
    }
}

/// Key membership after removing an accepted key.
pub proof fn lemma_acc_remove_has(s: Seq<(AgentID, TurnID)>, a: AgentID, b: AgentID)
    requires
        sorted_acc(s),
    ensures
        acc_has(acc_remove(s, a), b) <==> (acc_has(s, b) && b != a),
{
    let out = acc_remove(s, a);
    if acc_has(out, b) {
        let i = choose|i: int| 0 <= i < out.len() && out[i].0 == b;
        lemma_acc_remove_membership(s, a, out[i]);
        assert(out.contains(out[i]));
        let j = choose|j: int| 0 <= j < s.len() && s[j] == out[i];
        assert(acc_has(s, b));
    }
    if acc_has(s, b) && b != a {
        let i = choose|i: int| 0 <= i < s.len() && s[i].0 == b;
        lemma_acc_remove_membership(s, a, s[i]);
        assert(s.contains(s[i]));
        let j = choose|j: int| 0 <= j < out.len() && out[j] == s[i];
        assert(acc_has(out, b));
    }
}

/// Value lookup after removing an accepted key.
pub proof fn lemma_acc_remove_at_val(s: Seq<(AgentID, TurnID)>, a: AgentID, b: AgentID)
    requires
        sorted_acc(s),
        b != a,
        acc_has(s, b),
    ensures
        acc_at(acc_remove(s, a), b) == acc_at(s, b),
{
    let out = acc_remove(s, a);
    lemma_acc_remove_sorted(s, a);
    let i = choose|i: int| 0 <= i < s.len() && s[i].0 == b;
    lemma_acc_at(s, i);
    lemma_acc_remove_membership(s, a, s[i]);
    assert(s.contains(s[i]));
    let j = choose|j: int| 0 <= j < out.len() && out[j] == s[i];
    lemma_acc_at(out, j);
}

/// The turn of the first request of agent `a` in a request set, if any.
pub open spec fn reqs_agent_find(s: Seq<Request>, a: AgentID) -> Option<TurnID>
    decreases s.len(),
{
    if s.len() == 0 {
        Option::None
    } else if s[0].agent == a {
        Option::Some(s[0].turn)
    } else {
        reqs_agent_find(s.drop_first(), a)
    }
}

/// The turn of the first waiting request of agent `a`, if any.
pub open spec fn wait_agent_find(s: Seq<(Request, Tick)>, a: AgentID) -> Option<TurnID>
    decreases s.len(),
{
    if s.len() == 0 {
        Option::None
    } else if s[0].0.agent == a {
        Option::Some(s[0].0.turn)
    } else {
        wait_agent_find(s.drop_first(), a)
    }
}

/// The agent lookup misses exactly when no request is the agent's.
pub proof fn lemma_reqs_agent_find_none(s: Seq<Request>, a: AgentID)
    ensures
        (reqs_agent_find(s, a) is None) <==> (forall|i: int|
            0 <= i < s.len() ==> (#[trigger] s[i]).agent != a),
    decreases s.len(),
{
    if s.len() == 0 {
    } else {
        lemma_reqs_agent_find_none(s.drop_first(), a);
        if s[0].agent != a && reqs_agent_find(s, a) is None {
            assert forall|i: int| 0 <= i < s.len() implies (#[trigger] s[i]).agent != a by {
                if i > 0 {
                    assert(s.drop_first()[i - 1] == s[i]);
                }
            }
        }
        if forall|i: int| 0 <= i < s.len() ==> (#[trigger] s[i]).agent != a {
            assert forall|i: int| 0 <= i < s.drop_first().len() implies (#[trigger] s.drop_first()[i]).agent != a by {
                assert(s.drop_first()[i] == s[i + 1]);
            }
        }
    }
}

/// The agent lookup misses exactly when no waiting key is the agent's.
pub proof fn lemma_wait_agent_find_none(s: Seq<(Request, Tick)>, a: AgentID)
    ensures
        (wait_agent_find(s, a) is None) <==> (forall|i: int|
            0 <= i < s.len() ==> (#[trigger] s[i]).0.agent != a),
    decreases s.len(),
{
    if s.len() == 0 {
    } else {
        lemma_wait_agent_find_none(s.drop_first(), a);
        if s[0].0.agent != a && wait_agent_find(s, a) is None {
            assert forall|i: int| 0 <= i < s.len() implies (#[trigger] s[i]).0.agent != a by {
                if i > 0 {
                    assert(s.drop_first()[i - 1] == s[i]);
                }
            }
        }
        if forall|i: int| 0 <= i < s.len() ==> (#[trigger] s[i]).0.agent != a {
            assert forall|i: int| 0 <= i < s.drop_first().len() implies (#[trigger] s.drop_first()[i]).0.agent != a by {
                assert(s.drop_first()[i] == s[i + 1]);
            }
        }
    }
}

/// A hit of the agent lookup is one of the stored requests.
pub proof fn lemma_reqs_agent_find_some(s: Seq<Request>, a: AgentID)
    ensures
        reqs_agent_find(s, a) is Some ==> exists|i: int|
            0 <= i < s.len() && #[trigger] s[i] == (Request {
                agent: a,
                turn: reqs_agent_find(s, a)->Some_0,
            }),
    decreases s.len(),
{
    if s.len() == 0 {
    } else if s[0].agent == a {
        assert(s[0] == (Request { agent: a, turn: reqs_agent_find(s, a)->Some_0 }));
    } else {
        lemma_reqs_agent_find_some(s.drop_first(), a);
        if reqs_agent_find(s, a) is Some {
            let i = choose|i: int|
                0 <= i < s.drop_first().len() && #[trigger] s.drop_first()[i] == (Request {
                    agent: a,
                    turn: reqs_agent_find(s.drop_first(), a)->Some_0,
                });
            assert(s[i + 1] == (Request { agent: a, turn: reqs_agent_find(s, a)->Some_0 }));
        }
    }
}

/// A hit of the agent lookup is one of the stored waiting keys.
pub proof fn lemma_wait_agent_find_some(s: Seq<(Request, Tick)>, a: AgentID)
    ensures
        wait_agent_find(s, a) is Some ==> exists|i: int|
            0 <= i < s.len() && (#[trigger] s[i]).0 == (Request {
                agent: a,
                turn: wait_agent_find(s, a)->Some_0,
            }),
    decreases s.len(),
{
    if s.len() == 0 {
    } else if s[0].0.agent == a {
        assert(s[0].0 == (Request { agent: a, turn: wait_agent_find(s, a)->Some_0 }));
    } else {
        lemma_wait_agent_find_some(s.drop_first(), a);
        if wait_agent_find(s, a) is Some {
            let i = choose|i: int|
                0 <= i < s.drop_first().len() && (#[trigger] s.drop_first()[i]).0 == (Request {
                    agent: a,
                    turn: wait_agent_find(s.drop_first(), a)->Some_0,
                });
            assert(s[i + 1].0 == (Request { agent: a, turn: wait_agent_find(s, a)->Some_0 }));
        }
    }
}

/// With pairwise distinct agents, the agent lookup returns the turn of the
/// one request at index `i`.
pub proof fn lemma_reqs_agent_find_witness(s: Seq<Request>, a: AgentID, i: int)
    requires
        0 <= i < s.len(),
        s[i].agent == a,
        forall|x: int, y: int|
            0 <= x < y < s.len() ==> (#[trigger] s[x]).agent != (#[trigger] s[y]).agent,
    ensures
        reqs_agent_find(s, a) == Option::Some(s[i].turn),
    decreases s.len(),
{
    if s[0].agent == a {
        assert(i == 0);
    } else {
        assert(i > 0);
        assert(s.drop_first()[i - 1] == s[i]);
        assert forall|x: int, y: int|
            0 <= x < y < s.drop_first().len() implies (#[trigger] s.drop_first()[x]).agent != (
        #[trigger] s.drop_first()[y]).agent by {
            assert(s.drop_first()[x] == s[x + 1]);
            assert(s.drop_first()[y] == s[y + 1]);
        }
        lemma_reqs_agent_find_witness(s.drop_first(), a, i - 1);
    }
}

/// Looks the turn of the first request of agent `a` up.
pub fn reqs_agent_find_vec(v: &Vec<Request>, a: AgentID) -> (r: Option<TurnID>)
    ensures
        r == reqs_agent_find(v@, a),
{
    let n = v.len();
    let mut i: usize = 0;
    proof {
        assert(v@.skip(0) =~= v@);
    }
    while i < n
        invariant
            i <= n,
            n == v@.len(),
            reqs_agent_find(v@, a) == reqs_agent_find(v@.skip(i as int), a),
        decreases n - i,
    {
        proof {
            assert(v@.skip(i as int)[0] == v@[i as int]);
            assert(v@.skip(i as int).drop_first() =~= v@.skip(i as int + 1));
        }
        let x = v[i];
        if x.agent == a {
            return Option::Some(x.turn);
        }
        i += 1;
    }
    proof {
        assert(v@.skip(n as int) =~= Seq::<Request>::empty());
    }
    Option::None
}

/// Looks the turn of the first waiting request of agent `a` up.
pub fn wait_agent_find_vec(v: &Vec<(Request, Tick)>, a: AgentID) -> (r: Option<TurnID>)
    ensures
        r == wait_agent_find(v@, a),
{
    let n = v.len();
    let mut i: usize = 0;
    proof {
        assert(v@.skip(0) =~= v@);
    }
    while i < n
        invariant
            i <= n,
            n == v@.len(),
            wait_agent_find(v@, a) == wait_agent_find(v@.skip(i as int), a),
        decreases n - i,
    {
        proof {
            assert(v@.skip(i as int)[0] == v@[i as int]);
            assert(v@.skip(i as int).drop_first() =~= v@.skip(i as int + 1));
        }
        let (x, _t) = v[i];
        if x.agent == a {
            return Option::Some(x.turn);
        }
        i += 1;
    }
    proof {
        assert(v@.skip(n as int) =~= Seq::<(Request, Tick)>::empty());
    }
    Option::None
}

/// Key membership after inserting a fresh accepted key.
pub proof fn lemma_acc_insert_has(s: Seq<(AgentID, TurnID)>, a: AgentID, t: TurnID, b: AgentID)
    requires
        !acc_has(s, a),
    ensures
        acc_has(acc_insert(s, a, t), b) <==> (acc_has(s, b) || b == a),
{
    let out = acc_insert(s, a, t);
    if acc_has(out, b) {
        let i = choose|i: int| 0 <= i < out.len() && out[i].0 == b;
        lemma_acc_insert_membership(s, a, t, out[i]);
        assert(out.contains(out[i]));
        if s.contains(out[i]) {
            let j = choose|j: int| 0 <= j < s.len() && s[j] == out[i];
            assert(acc_has(s, b));
        } else {
            assert(out[i] == (a, t));
        }
    }
    if acc_has(s, b) {
        let i = choose|i: int| 0 <= i < s.len() && s[i].0 == b;
        lemma_acc_insert_membership(s, a, t, s[i]);
        assert(s.contains(s[i]));
        let j = choose|j: int| 0 <= j < out.len() && out[j] == s[i];
        assert(acc_has(out, b));
    }
    if b == a {
        lemma_acc_insert_membership(s, a, t, (a, t));
        let j = choose|j: int| 0 <= j < out.len() && out[j] == (a, t);
        assert(acc_has(out, b));
    }
}

/// Inserting a request of another agent leaves an agent lookup unchanged.
pub proof fn lemma_reqs_agent_find_stable(s: Seq<Request>, r: Request, a: AgentID)
    requires
        sorted_reqs(s),
        a != r.agent,
    ensures
        reqs_agent_find(reqset_insert(s, r), a) == reqs_agent_find(s, a),
    decreases s.len(),
{
    let out = reqset_insert(s, r);
    if s.len() == 0 {
        assert(out[0] == r);
        assert(out.drop_first() =~= Seq::<Request>::empty());
        assert(reqs_agent_find(out, a) == reqs_agent_find(out.drop_first(), a));
        assert(reqs_agent_find(out.drop_first(), a) is None);
    } else if req_lt(r, s[0]) {
        assert(out[0] == r);
        assert(out.drop_first() =~= s);
        assert(reqs_agent_find(out, a) == reqs_agent_find(out.drop_first(), a));
    } else if r == s[0] {
    } else {
        let rest = reqset_insert(s.drop_first(), r);
        assert(out == seq![s[0]] + rest);
        assert(out[0] == s[0]);
        assert(out.drop_first() =~= rest);
        if s[0].agent == a {
            assert(reqs_agent_find(out, a) == Option::Some(out[0].turn));
            assert(reqs_agent_find(s, a) == Option::Some(s[0].turn));
        } else {
            lemma_reqs_agent_find_stable(s.drop_first(), r, a);
            assert(reqs_agent_find(out, a) == reqs_agent_find(out.drop_first(), a));
            assert(reqs_agent_find(s, a) == reqs_agent_find(s.drop_first(), a));
        }
    }
}

} // verus!
