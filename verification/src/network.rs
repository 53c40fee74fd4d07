//! The mathematical model of a circuit: a map from identifiers to gates, a
//! work queue, and the effect of one evaluation and of a whole traversal on
//! both.

use vstd::prelude::*;
use crate::components::{Gate, GateView};
use crate::types::{ID, NULL, PIN};

verus! {

/// The gates of a circuit by identifier.
pub type Net = Map<ID, GateView>;

/// What a traversal does at each gate it visits.
#[derive(Clone, Copy, PartialEq, Eq, Debug, Structural)]
pub enum ComponentActor {
    /// Evaluate the component and pass its output on, changed or not.
    PowerOn,
    /// Evaluate the component and pass its output on only where it changed.
    UpdateState,
    /// Recompute the formula of the component and pass it on where it changed.
    SetExpressions,
    /// Recompute the formula of the component and pass it on, changed or not:
    /// the first visit of a compiling pass.
    Compile,
}

impl ComponentActor {
    /// Whether the visits of this kind work on values; the others work on
    /// formulas.
    pub open spec fn on_values(self) -> bool {
        self == ComponentActor::PowerOn || self == ComponentActor::UpdateState
    }
}

/// The model of a store of gates.
pub open spec fn net_of(m: Map<ID, Gate>) -> Net {
    Map::new(|k: ID| m.contains_key(k), |k: ID| m[k]@)
}

/// No identifier stands twice in a row.
pub open spec fn coalesced(q: Seq<ID>) -> bool {
    forall|i: int| #![trigger q[i]] 0 <= i < q.len() - 1 ==> q[i] != q[i + 1]
}

/// The queue after `id` was scheduled: it is appended unless it already
/// stands at the tail.
pub open spec fn enqueue(q: Seq<ID>, id: ID) -> Seq<ID> {
    if q.len() > 0 && q.last() == id {
        q
    } else {
        q.push(id)
    }
}

/// The queue after each of `ids` was scheduled in turn.
pub open spec fn enqueue_all(q: Seq<ID>, ids: Seq<ID>) -> Seq<ID>
    decreases ids.len(),
{
    if ids.len() == 0 {
        q
    } else {
        enqueue(enqueue_all(q, ids.drop_last()), ids.last())
    }
}

/// The gates that a list of forward edges leads to, in order.
pub open spec fn targets(recvs: Seq<(ID, PIN)>) -> Seq<ID> {
    recvs.map_values(|e: (ID, PIN)| e.0)
}

/// The net after `v` was written to pin `p` of gate `r`. An edge to a gate
/// or pin that does not exist writes nothing.
pub open spec fn write_pin(net: Net, r: ID, p: PIN, v: bool) -> Net {
    if net.contains_key(r) {
        net.insert(r, net[r].with_pin_val(p, v))
    } else {
        net
    }
}

/// The net after the formula `e` was written to pin `p` of gate `r`.
pub open spec fn write_expr(net: Net, r: ID, p: PIN, e: Seq<char>) -> Net {
    if net.contains_key(r) {
        net.insert(r, net[r].with_pin_expr(p, e))
    } else {
        net
    }
}

/// The net after `v` was written along each of the forward edges `recvs`.
pub open spec fn deliver(net: Net, recvs: Seq<(ID, PIN)>, v: bool) -> Net
    decreases recvs.len(),
{
    if recvs.len() == 0 {
        net
    } else {
        write_pin(deliver(net, recvs.drop_last(), v), recvs.last().0, recvs.last().1, v)
    }
}

/// The net after the formula `e` was written along each of the forward
/// edges `recvs`.
pub open spec fn deliver_expr(net: Net, recvs: Seq<(ID, PIN)>, e: Seq<char>) -> Net
    decreases recvs.len(),
{
    if recvs.len() == 0 {
        net
    } else {
        write_expr(deliver_expr(net, recvs.drop_last(), e), recvs.last().0, recvs.last().1, e)
    }
}

/// The effect of one visit: the net and the queue after `actor` ran on gate
/// `id`, where `q` is the queue without that visit.
///
/// A value visit evaluates the component. Under `UpdateState` an unchanged
/// output ends the visit. Otherwise the output is written to the pin of
/// every forward edge and the receivers are scheduled. A formula visit does
/// the same with the formula of the component; under `SetExpressions` an
/// unchanged formula ends the visit. A visit to an identifier that the net
/// does not hold does nothing.
pub open spec fn act(net: Net, q: Seq<ID>, id: ID, actor: ComponentActor) -> (Net, Seq<ID>) {
    if !net.contains_key(id) {
        (net, q)
    } else {
        let g = net[id];
        if actor.on_values() {
            let g2 = g.evaluated();
            if actor == ComponentActor::UpdateState && g2.state == g.state {
                (net.insert(id, g2), q)
            } else {
                (
                    deliver(net.insert(id, g2), g.receivers, g2.state),
                    enqueue_all(q, targets(g.receivers)),
                )
            }
        } else {
            let e = g.next_expr();
            if actor == ComponentActor::SetExpressions && e == g.state_expr {
                (net, q)
            } else {
                let g2 = GateView { state_expr: e, ..g };
                (
                    deliver_expr(net.insert(id, g2), g.receivers, e),
                    enqueue_all(q, targets(g.receivers)),
                )
            }
        }
    }
}

/// The net and the queue after a traversal of at most `fuel` visits: the
/// head of the queue is visited until the queue is empty or the visits are
/// used up.
pub open spec fn run(net: Net, q: Seq<ID>, actor: ComponentActor, fuel: nat) -> (Net, Seq<ID>)
    decreases fuel,
{
    if q.len() == 0 || fuel == 0 {
        (net, q)
    } else {
        let next = act(net, q.skip(1), q[0], actor);
        run(next.0, next.1, actor, (fuel - 1) as nat)
    }
}

/// The net after a traversal that starts from the seeds `inits` with an
/// empty queue.
pub open spec fn traverse(net: Net, inits: Seq<ID>, actor: ComponentActor, fuel: nat) -> Net {
    run(net, enqueue_all(Seq::empty(), inits), actor, fuel).0
}

/// Whether that traversal emptied its queue within `fuel` visits.
pub open spec fn settles(net: Net, inits: Seq<ID>, actor: ComponentActor, fuel: nat) -> bool {
    run(net, enqueue_all(Seq::empty(), inits), actor, fuel).1.len() == 0
}

/// Every gate is stored under its own identifier and is well formed, and
/// the wiring is consistent in both directions: a forward edge of `e` to
/// pin `p` of `r` stands exactly where pin `p` of `r` names `e` as its
/// source. No gate drives itself.
pub open spec fn net_wf(net: Net) -> bool {
    &&& forall|id: ID|
        #![trigger net.contains_key(id)]
        net.contains_key(id) ==> net[id].id == id && net[id].wf() && id != NULL
    &&& forall|e: ID, i: int|
        #![trigger net[e].receivers[i]]
        net.contains_key(e) && 0 <= i < net[e].receivers.len() ==> edge_has_slot(
            net,
            e,
            net[e].receivers[i],
        )
    &&& forall|r: ID, p: int|
        #![trigger net[r].pin_sources[p]]
        net.contains_key(r) && 0 <= p < net[r].pin_sources.len() && net[r].pin_sources[p] != NULL
            ==> slot_has_edge(net, r, p)
}

/// The forward edge `edge` of `e` leads to a pin that names `e` as its
/// source.
pub open spec fn edge_has_slot(net: Net, e: ID, edge: (ID, PIN)) -> bool {
    &&& net.contains_key(edge.0)
    &&& edge.1 < net[edge.0].pin_sources.len()
    &&& net[edge.0].pin_sources[edge.1 as int] == e
    &&& edge.0 != e
}

/// The source of pin `p` of `r` is a gate that lists the forward edge to
/// that pin.
pub open spec fn slot_has_edge(net: Net, r: ID, p: int) -> bool {
    &&& net.contains_key(net[r].pin_sources[p])
    &&& net[net[r].pin_sources[p]].receivers.contains((r, p as PIN))
}

/// The two gates differ at most in output, pin values, formulas and what
/// the edge detector remembers.
pub open spec fn same_wiring_gate(a: GateView, b: GateView) -> bool {
    &&& a.name == b.name
    &&& a.id == b.id
    &&& a.comp_type == b.comp_type
    &&& a.label == b.label
    &&& a.eval == b.eval
    &&& a.receivers == b.receivers
    &&& a.symbol == b.symbol
    &&& a.pin_sources == b.pin_sources
    &&& a.pin_values.len() == b.pin_values.len()
    &&& a.pin_exprs.len() == b.pin_exprs.len()
    &&& (a.clock is Some <==> b.clock is Some)
}

/// The two nets hold the same gates with the same wiring.
pub open spec fn same_wiring(a: Net, b: Net) -> bool {
    &&& a.dom() == b.dom()
    &&& forall|id: ID|
        #![trigger a.contains_key(id)]
        a.contains_key(id) ==> same_wiring_gate(a[id], b[id])
}

/// Every gate of the net is settled.
pub open spec fn net_settled(net: Net) -> bool {
    forall|id: ID| #![trigger net.contains_key(id)] net.contains_key(id) ==> net[id].settled()
}

/// Every gate without an edge detector has a level function for its logic.
pub open spec fn level_driven(net: Net) -> bool {
    forall|id: ID|
        #![trigger net.contains_key(id)]
        net.contains_key(id) && net[id].clock is None ==> net[id].eval.is_level()
}

/// Every gate of `s` that is not settled stands in the queue.
pub open spec fn unsettled_queued(net: Net, q: Seq<ID>, s: Set<ID>) -> bool {
    forall|id: ID|
        #![trigger net.contains_key(id)]
        net.contains_key(id) && s.contains(id) && !net[id].settled() ==> q.contains(id)
}

/// Wiring that agrees is an equivalence: it can be chained.
pub proof fn lemma_same_wiring_chain(a: Net, b: Net, c: Net)
    requires
        same_wiring(a, b),
        same_wiring(b, c),
    ensures
        same_wiring(a, c),
{
    assert forall|id: ID| #![trigger a.contains_key(id)] a.contains_key(id) implies same_wiring_gate(
        a[id],
        c[id],
    ) by {
        assert(b.contains_key(id));
    }
}

/// Writing a value or a formula to a pin leaves the wiring as it is.
pub proof fn lemma_write_keeps_wiring(net: Net, r: ID, p: PIN, v: bool, e: Seq<char>)
    ensures
        same_wiring(net, write_pin(net, r, p, v)),
        same_wiring(net, write_expr(net, r, p, e)),
{
    assert(write_pin(net, r, p, v).dom() =~= net.dom());
    assert(write_expr(net, r, p, e).dom() =~= net.dom());
}

/// Writing along a list of forward edges leaves the wiring as it is.
pub proof fn lemma_deliver_keeps_wiring(net: Net, recvs: Seq<(ID, PIN)>, v: bool, e: Seq<char>)
    ensures
        same_wiring(net, deliver(net, recvs, v)),
        same_wiring(net, deliver_expr(net, recvs, e)),
    decreases recvs.len(),
{
    if recvs.len() > 0 {
        lemma_deliver_keeps_wiring(net, recvs.drop_last(), v, e);
        let dv = deliver(net, recvs.drop_last(), v);
        let de = deliver_expr(net, recvs.drop_last(), e);
        lemma_write_keeps_wiring(dv, recvs.last().0, recvs.last().1, v, e);
        lemma_write_keeps_wiring(de, recvs.last().0, recvs.last().1, v, e);
        lemma_same_wiring_chain(net, dv, deliver(net, recvs, v));
        lemma_same_wiring_chain(net, de, deliver_expr(net, recvs, e));
    }
}

/// One visit leaves the wiring as it is.
pub proof fn lemma_act_keeps_wiring(net: Net, q: Seq<ID>, id: ID, actor: ComponentActor)
    ensures
        same_wiring(net, act(net, q, id, actor).0),
{
    if net.contains_key(id) {
        let g = net[id];
        if actor.on_values() {
            let g2 = g.evaluated();
            let base = net.insert(id, g2);
            assert(base.dom() =~= net.dom());
            lemma_deliver_keeps_wiring(base, g.receivers, g2.state, Seq::empty());
            lemma_same_wiring_chain(net, base, deliver(base, g.receivers, g2.state));
        } else {
            let e = g.next_expr();
            let base = net.insert(id, GateView { state_expr: e, ..g });
            assert(base.dom() =~= net.dom());
            lemma_deliver_keeps_wiring(base, g.receivers, false, e);
            lemma_same_wiring_chain(net, base, deliver_expr(base, g.receivers, e));
        }
    }
}

/// A traversal leaves the wiring as it is.
pub proof fn lemma_run_keeps_wiring(net: Net, q: Seq<ID>, actor: ComponentActor, fuel: nat)
    ensures
        same_wiring(net, run(net, q, actor, fuel).0),
    decreases fuel,
{
    if q.len() == 0 || fuel == 0 {
    } else {
        let next = act(net, q.skip(1), q[0], actor);
        lemma_act_keeps_wiring(net, q.skip(1), q[0], actor);
        lemma_run_keeps_wiring(next.0, next.1, actor, (fuel - 1) as nat);
        lemma_same_wiring_chain(net, next.0, run(net, q, actor, fuel).0);
    }
}

/// A net with the wiring of a well-formed net is well formed.
pub proof fn lemma_wiring_keeps_wf(a: Net, b: Net)
    requires
        net_wf(a),
        same_wiring(a, b),
    ensures
        net_wf(b),
        level_driven(a) ==> level_driven(b),
{
    assert forall|id: ID| #![trigger b.contains_key(id)] b.contains_key(id) implies b[id].id == id
        && b[id].wf() && id != NULL by {
        assert(a.contains_key(id));
    }
    assert forall|e: ID, i: int|
        #![trigger b[e].receivers[i]]
        b.contains_key(e) && 0 <= i < b[e].receivers.len() implies edge_has_slot(
        b,
        e,
        b[e].receivers[i],
    ) by {
        assert(a.contains_key(e));
        let edge = a[e].receivers[i];
        assert(edge_has_slot(a, e, edge));
        assert(a.contains_key(edge.0));
        assert(b.contains_key(edge.0));
    }
    assert forall|r: ID, p: int|
        #![trigger b[r].pin_sources[p]]
        b.contains_key(r) && 0 <= p < b[r].pin_sources.len() && b[r].pin_sources[p]
            != NULL implies slot_has_edge(b, r, p) by {
        assert(a.contains_key(r));
        assert(a[r].pin_sources[p] != NULL);
        assert(slot_has_edge(a, r, p));
        assert(a.contains_key(a[r].pin_sources[p]));
    }
    if level_driven(a) {
        assert forall|id: ID|
            #![trigger b.contains_key(id)]
            b.contains_key(id) && b[id].clock is None implies b[id].eval.is_level() by {
            assert(a.contains_key(id));
        }
    }
}

/// Scheduling keeps a queue free of neighbours that are equal, and keeps
/// what was queued before.
pub proof fn lemma_enqueue_all(q: Seq<ID>, ids: Seq<ID>)
    ensures
        coalesced(q) ==> coalesced(enqueue_all(q, ids)),
        forall|x: ID| q.contains(x) ==> enqueue_all(q, ids).contains(x),
        forall|x: ID| ids.contains(x) ==> enqueue_all(q, ids).contains(x),
    decreases ids.len(),
{
    if ids.len() > 0 {
        let prev = enqueue_all(q, ids.drop_last());
        lemma_enqueue_all(q, ids.drop_last());
        let next = enqueue(prev, ids.last());
        assert forall|x: ID| prev.contains(x) implies next.contains(x) by {
            let i = choose|i: int| 0 <= i < prev.len() && prev[i] == x;
            assert(next[i] == x);
        }
        assert(next.contains(ids.last())) by {
            assert(next[next.len() - 1] == ids.last());
        }
        assert forall|x: ID| ids.contains(x) implies next.contains(x) by {
            let i = choose|i: int| 0 <= i < ids.len() && ids[i] == x;
            if i < ids.len() - 1 {
                assert(ids.drop_last()[i] == x);
                assert(ids.drop_last().contains(x));
            }
        }
    }
}

/// A visit keeps the queue free of neighbours that are equal.
pub proof fn lemma_act_keeps_coalesced(net: Net, q: Seq<ID>, id: ID, actor: ComponentActor)
    requires
        coalesced(q),
    ensures
        coalesced(act(net, q, id, actor).1),
{
    if net.contains_key(id) {
        lemma_enqueue_all(q, targets(net[id].receivers));
    }
}

/// The queue of a traversal never holds the same identifier twice in a
/// row, from a queue that does not.
pub proof fn lemma_run_keeps_coalesced(net: Net, q: Seq<ID>, actor: ComponentActor, fuel: nat)
    requires
        coalesced(q),
    ensures
        coalesced(run(net, q, actor, fuel).1),
    decreases fuel,
{
    if q.len() == 0 || fuel == 0 {
    } else {
        let rest = q.skip(1);
        assert(coalesced(rest)) by {
            assert forall|i: int| #![trigger rest[i]] 0 <= i < rest.len() - 1 implies rest[i]
                != rest[i + 1] by {
                assert(q[i + 1] != q[i + 2]);
            }
        }
        lemma_act_keeps_coalesced(net, rest, q[0], actor);
        let next = act(net, rest, q[0], actor);
        lemma_run_keeps_coalesced(next.0, next.1, actor, (fuel - 1) as nat);
    }
}

/// Writing along forward edges changes no gate that none of them leads to.
pub proof fn lemma_deliver_misses(net: Net, recvs: Seq<(ID, PIN)>, v: bool, x: ID)
    requires
        !targets(recvs).contains(x),
    ensures
        deliver(net, recvs, v).contains_key(x) == net.contains_key(x),
        net.contains_key(x) ==> deliver(net, recvs, v)[x] == net[x],
    decreases recvs.len(),
{
    if recvs.len() > 0 {
        let ids = targets(recvs);
        assert(ids[recvs.len() - 1] == recvs.last().0);
        assert(recvs.last().0 != x);
        assert(!targets(recvs.drop_last()).contains(x)) by {
            if targets(recvs.drop_last()).contains(x) {
                let i = choose|i: int|
                    0 <= i < targets(recvs.drop_last()).len() && targets(recvs.drop_last())[i] == x;
                assert(ids[i] == x);
            }
        }
        lemma_deliver_misses(net, recvs.drop_last(), v, x);
    }
}

/// A gate that was just evaluated is settled, where it has an edge detector
/// or a level function for its logic.
pub proof fn lemma_evaluated_is_settled(g: GateView)
    requires
        g.clock is Some || g.eval.is_level(),
    ensures
        g.evaluated().settled(),
{
    if g.clock is None {
        g.eval.lemma_level_idempotent(g.pin_values, g.state);
    }
}

/// Every gate of `s` without an edge detector has a level function for
/// its logic.
pub open spec fn level_on(net: Net, s: Set<ID>) -> bool {
    forall|id: ID|
        #![trigger net.contains_key(id)]
        net.contains_key(id) && s.contains(id) && net[id].clock is None ==> net[id].eval.is_level()
}

/// A value visit keeps every unsettled gate of `s` in the queue.
pub proof fn lemma_act_keeps_unsettled_queued(
    net: Net,
    q: Seq<ID>,
    id: ID,
    actor: ComponentActor,
    s: Set<ID>,
)
    requires
        net_wf(net),
        level_on(net, s),
        actor.on_values(),
        unsettled_queued(net, seq![id] + q, s),
    ensures
        unsettled_queued(act(net, q, id, actor).0, act(net, q, id, actor).1, s),
{
    let n2 = act(net, q, id, actor).0;
    let q2 = act(net, q, id, actor).1;
    let full = seq![id] + q;
    lemma_act_keeps_wiring(net, q, id, actor);
    assert forall|x: ID|
        #![trigger n2.contains_key(x)]
        n2.contains_key(x) && s.contains(x) && !n2[x].settled() implies q2.contains(x) by {
        assert(net.contains_key(x));
        if !net.contains_key(id) {
            assert(full.contains(x));
            let i = choose|i: int| 0 <= i < full.len() && full[i] == x;
            assert(i != 0);
            assert(q[i - 1] == x);
        } else {
            let g = net[id];
            let g2 = g.evaluated();
            let base = net.insert(id, g2);
            if s.contains(id) {
                lemma_evaluated_is_settled(g);
            }
            let ids = targets(g.receivers);
            lemma_enqueue_all(q, ids);
            assert(!ids.contains(id)) by {
                if ids.contains(id) {
                    let i = choose|i: int| 0 <= i < ids.len() && ids[i] == id;
                    assert(edge_has_slot(net, id, g.receivers[i]));
                }
            }
            if actor == ComponentActor::UpdateState && g2.state == g.state {
                assert(n2 == base);
                assert(q2 == q);
                if x != id {
                    assert(n2[x] == net[x]);
                    assert(full.contains(x));
                    let i = choose|i: int| 0 <= i < full.len() && full[i] == x;
                    assert(q[i - 1] == x);
                } else {
                    assert(n2[x] == g2);
                }
            } else {
                assert(n2 == deliver(base, g.receivers, g2.state));
                assert(q2 == enqueue_all(q, ids));
                if ids.contains(x) {
                    assert(q2.contains(x));
                } else {
                    lemma_deliver_misses(base, g.receivers, g2.state, x);
                    if x != id {
                        assert(n2[x] == net[x]);
                        assert(full.contains(x));
                        let i = choose|i: int| 0 <= i < full.len() && full[i] == x;
                        assert(q[i - 1] == x);
                        assert(q.contains(x));
                        assert(q2.contains(x));
                    } else {
                        assert(n2[x] == g2);
                    }
                }
            }
        }
    }
}

/// A value traversal that empties its queue leaves settled every gate of
/// `s`, where every unsettled gate of `s` stood in the queue at the start.
pub proof fn lemma_run_settles(net: Net, q: Seq<ID>, actor: ComponentActor, fuel: nat, s: Set<ID>)
    requires
        net_wf(net),
        level_on(net, s),
        actor.on_values(),
        unsettled_queued(net, q, s),
        run(net, q, actor, fuel).1.len() == 0,
    ensures
        forall|x: ID|
            #![trigger run(net, q, actor, fuel).0.contains_key(x)]
            run(net, q, actor, fuel).0.contains_key(x) && s.contains(x) ==> run(
                net,
                q,
                actor,
                fuel,
            ).0[x].settled(),
    decreases fuel,
{
    if q.len() == 0 {
        assert forall|x: ID| #![trigger net.contains_key(x)] net.contains_key(x) && s.contains(x)
            implies net[x].settled() by {
            if !net[x].settled() {
                assert(q.contains(x));
            }
        }
    } else if fuel == 0 {
    } else {
        let rest = q.skip(1);
        assert(seq![q[0]] + rest =~= q);
        lemma_act_keeps_unsettled_queued(net, rest, q[0], actor, s);
        let next = act(net, rest, q[0], actor);
        lemma_act_keeps_wiring(net, rest, q[0], actor);
        lemma_wiring_keeps_wf(net, next.0);
        assert(level_on(next.0, s)) by {
            assert forall|x: ID|
                #![trigger next.0.contains_key(x)]
                next.0.contains_key(x) && s.contains(x) && next.0[x].clock is None implies next.0[x].eval.is_level() by {
                assert(net.contains_key(x));
                assert(same_wiring_gate(net[x], next.0[x]));
            }
        }
        lemma_run_settles(next.0, next.1, actor, (fuel - 1) as nat, s);
    }
}

/// A traversal that stops at unchanged gates changes nothing where every
/// gate in its queue is settled.
pub proof fn lemma_run_on_settled(net: Net, q: Seq<ID>, fuel: nat)
    requires
        forall|i: int| 0 <= i < q.len() && net.contains_key(#[trigger] q[i]) ==> net[q[i]].settled(),
    ensures
        run(net, q, ComponentActor::UpdateState, fuel).0 == net,
        fuel >= q.len() ==> run(net, q, ComponentActor::UpdateState, fuel).1.len() == 0,
    decreases fuel,
{
    if q.len() == 0 || fuel == 0 {
    } else {
        let rest = q.skip(1);
        let next = act(net, rest, q[0], ComponentActor::UpdateState);
        if net.contains_key(q[0]) {
            let g = net[q[0]];
            assert(g.settled());
            assert(g.evaluated() == g);
            assert(net.insert(q[0], g) =~= net);
        }
        assert(next.0 == net);
        assert(next.1 == rest);
        assert forall|i: int| 0 <= i < rest.len() && net.contains_key(#[trigger] rest[i])
            implies net[rest[i]].settled() by {
            assert(rest[i] == q[i + 1]);
        }
        lemma_run_on_settled(net, rest, (fuel - 1) as nat);
    }
}

/// The net after gate `e` was wired to pin `p` of gate `r`: `e` lists the
/// forward edge, and the pin takes the output, identifier and formula of
/// `e`.
pub open spec fn linked(net: Net, r: ID, p: PIN, e: ID) -> Net {
    let net1 = net.insert(e, net[e].with_receiver(r, p));
    net1.insert(r, net1[r].with_source(p, e, net[e].state, net[e].state_expr))
}

/// The net after the wire from gate `e` to pin `p` of gate `r` was cut:
/// `e` no longer lists the forward edge, and the pin is driven by nothing.
pub open spec fn unlinked(net: Net, r: ID, p: PIN, e: ID) -> Net {
    let net1 = net.insert(e, net[e].without_receiver(r, p));
    net1.insert(r, net1[r].with_pin_cleared(p))
}

/// The two gates differ at most in output, pin values, formulas, what the
/// edge detector remembers, and the order of their forward edges.
pub open spec fn same_edges_gate(a: GateView, b: GateView) -> bool {
    &&& a.name == b.name
    &&& a.id == b.id
    &&& a.comp_type == b.comp_type
    &&& a.label == b.label
    &&& a.eval == b.eval
    &&& a.symbol == b.symbol
    &&& a.pin_sources == b.pin_sources
    &&& a.pin_values.len() == b.pin_values.len()
    &&& a.pin_exprs.len() == b.pin_exprs.len()
    &&& (a.clock is Some <==> b.clock is Some)
    &&& a.receivers.len() == b.receivers.len()
    &&& forall|edge: (ID, PIN)|
        #![trigger a.receivers.contains(edge)]
        #![trigger b.receivers.contains(edge)]
        a.receivers.contains(edge) <==> b.receivers.contains(edge)
}

/// The two nets hold the same gates, every pin names the same source in
/// both, and every gate lists the same forward edges in both.
pub open spec fn same_edges(a: Net, b: Net) -> bool {
    &&& a.dom() == b.dom()
    &&& forall|id: ID|
        #![trigger a.contains_key(id)]
        a.contains_key(id) ==> same_edges_gate(a[id], b[id])
}

/// A wire that is laid and, however far the values went since, cut again
/// leaves the wiring as it was before.
pub proof fn lemma_link_then_unlink(net: Net, mid: Net, r: ID, p: PIN, e: ID)
    requires
        net_wf(net),
        net.contains_key(r),
        net.contains_key(e),
        r != e,
        p < net[r].pin_sources.len(),
        net[r].pin_sources[p as int] == NULL,
        same_wiring(linked(net, r, p, e), mid),
    ensures
        mid.contains_key(r),
        mid.contains_key(e),
        mid[e].receivers.contains((r, p)),
        same_wiring(net, unlinked(mid, r, p, e)),
{
    let laid = linked(net, r, p, e);
    let back = unlinked(mid, r, p, e);
    lemma_link_keeps_wf(net, r, p, e);
    assert(laid.contains_key(r) && laid.contains_key(e));
    let edges = net[e].receivers;
    assert(laid[e].receivers == edges.push((r, p)));
    assert(mid[e].receivers == edges.push((r, p)));
    assert(mid[e].receivers[edges.len() as int] == (r, p));
    let full = mid[e].receivers;
    full.index_of_first_ensures((r, p));
    let at = full.index_of_first((r, p))->Some_0;
    assert(at == edges.len()) by {
        if at < edges.len() {
            assert(edges[at] == (r, p));
        }
    }
    assert(full.remove(at) =~= edges);
    assert(back.dom() =~= net.dom());
    assert(back[r].pin_sources =~= net[r].pin_sources);
    assert forall|id: ID| #![trigger net.contains_key(id)] net.contains_key(id) implies same_wiring_gate(
        net[id],
        back[id],
    ) by {
        assert(laid.contains_key(id));
        if id != r && id != e {
            assert(laid[id] == net[id]);
            assert(back[id] == mid[id]);
        }
    }
}

/// A wire that is cut and, however far the values went since, laid again
/// leaves every pin with its source and every gate with its forward edges.
pub proof fn lemma_unlink_then_link(net: Net, mid: Net, r: ID, p: PIN, e: ID)
    requires
        net_wf(net),
        net.contains_key(e),
        net[e].receivers.contains((r, p)),
        same_wiring(unlinked(net, r, p, e), mid),
    ensures
        mid.contains_key(r),
        mid.contains_key(e),
        r != e,
        p < mid[r].pin_sources.len(),
        mid[r].pin_sources[p as int] == NULL,
        same_edges(net, linked(mid, r, p, e)),
{
    let cut = unlinked(net, r, p, e);
    let back = linked(mid, r, p, e);
    lemma_unlink_keeps_wf(net, r, p, e);
    lemma_remove_value_unique(net[e].receivers, (r, p));
    assert(cut.contains_key(r) && cut.contains_key(e));
    let edges = net[e].receivers;
    let fewer = edges.remove_value((r, p));
    assert(cut[e].receivers == fewer);
    assert(mid[e].receivers == fewer);
    assert(back[e].receivers == fewer.push((r, p)));
    assert(back.dom() =~= net.dom());
    assert(back[r].pin_sources =~= net[r].pin_sources);
    assert forall|edge: (ID, PIN)|
        #![trigger edges.contains(edge)]
        #![trigger back[e].receivers.contains(edge)]
        edges.contains(edge) <==> back[e].receivers.contains(edge) by {
        let more = fewer.push((r, p));
        if edges.contains(edge) {
            if edge == (r, p) {
                assert(more[fewer.len() as int] == edge);
            } else {
                assert(fewer.contains(edge));
                let i = choose|i: int| 0 <= i < fewer.len() && fewer[i] == edge;
                assert(more[i] == edge);
            }
        }
        if more.contains(edge) {
            let i = choose|i: int| 0 <= i < more.len() && more[i] == edge;
            if i < fewer.len() {
                assert(fewer[i] == edge);
                assert(fewer.contains(edge));
            }
        }
    }
    assert forall|id: ID| #![trigger net.contains_key(id)] net.contains_key(id) implies same_edges_gate(
        net[id],
        back[id],
    ) by {
        assert(cut.contains_key(id));
        if id != r && id != e {
            assert(cut[id] == net[id]);
            assert(back[id] == mid[id]);
        }
    }
}

/// A sequence without one of its elements has no duplicates where the
/// sequence has none, holds what the sequence held but for that element,
/// and nothing else.
pub proof fn lemma_remove_value_unique<A>(s: Seq<A>, x: A)
    requires
        s.no_duplicates(),
        s.contains(x),
    ensures
        s.remove_value(x).no_duplicates(),
        !s.remove_value(x).contains(x),
        forall|y: A| y != x && s.contains(y) ==> s.remove_value(x).contains(y),
        forall|y: A| s.remove_value(x).contains(y) ==> s.contains(y),
        s.remove_value(x).len() == s.len() - 1,
{
    s.index_of_first_ensures(x);
    let i = s.index_of_first(x)->Some_0;
    let t = s.remove(i);
    s.remove_ensures(i);
    assert forall|a: int, b: int| 0 <= a < t.len() && 0 <= b < t.len() && a != b implies t[a]
        != t[b] by {
        let a0 = if a < i { a } else { a + 1 };
        let b0 = if b < i { b } else { b + 1 };
        assert(t[a] == s[a0]);
        assert(t[b] == s[b0]);
    }
    assert forall|y: A| y != x && s.contains(y) implies t.contains(y) by {
        let k = choose|k: int| 0 <= k < s.len() && s[k] == y;
        if k < i {
            assert(t[k] == y);
        } else {
            assert(t[k - 1] == y);
        }
    }
    assert forall|y: A| t.contains(y) implies s.contains(y) && y != x by {
        let k = choose|k: int| 0 <= k < t.len() && t[k] == y;
        let k0 = if k < i { k } else { k + 1 };
        assert(t[k] == s[k0]);
    }
}

/// Wiring a gate to a free pin of another gate keeps the net well formed.
pub proof fn lemma_link_keeps_wf(net: Net, r: ID, p: PIN, e: ID)
    requires
        net_wf(net),
        net.contains_key(r),
        net.contains_key(e),
        r != e,
        p < net[r].pin_sources.len(),
        net[r].pin_sources[p as int] == NULL,
    ensures
        net_wf(linked(net, r, p, e)),
        linked(net, r, p, e).dom() == net.dom(),
        !net[e].receivers.contains((r, p)),
{
    let after = linked(net, r, p, e);
    assert(after.dom() =~= net.dom());
    assert(!net[e].receivers.contains((r, p))) by {
        if net[e].receivers.contains((r, p)) {
            let i = choose|i: int| 0 <= i < net[e].receivers.len() && net[e].receivers[i] == (r, p);
            assert(edge_has_slot(net, e, net[e].receivers[i]));
        }
    }
    let em = net[e].with_receiver(r, p);
    assert(em.receivers == net[e].receivers.push((r, p)));
    assert(after[e] == em);
    assert(after[r] == net[r].with_source(p, e, net[e].state, net[e].state_expr));
    assert forall|id: ID| #![trigger after.contains_key(id)] after.contains_key(id) implies after[id].id
        == id && after[id].wf() && id != NULL by {
        assert(net.contains_key(id));
        if id != e && id != r {
            assert(after[id] == net[id]);
        }
    }
    assert forall|x: ID, i: int|
        #![trigger after[x].receivers[i]]
        after.contains_key(x) && 0 <= i < after[x].receivers.len() implies edge_has_slot(
        after,
        x,
        after[x].receivers[i],
    ) by {
        assert(net.contains_key(x));
        let edge = after[x].receivers[i];
        if x == e && i == net[e].receivers.len() {
            assert(edge == (r, p));
        } else {
            assert(edge == net[x].receivers[i]);
            assert(edge_has_slot(net, x, net[x].receivers[i]));
            if edge.0 == r {
                assert(edge.1 != p);
            } else if edge.0 != e {
                assert(after[edge.0] == net[edge.0]);
            }
        }
    }
    assert forall|y: ID, k: int|
        #![trigger after[y].pin_sources[k]]
        after.contains_key(y) && 0 <= k < after[y].pin_sources.len() && after[y].pin_sources[k]
            != NULL implies slot_has_edge(after, y, k) by {
        assert(net.contains_key(y));
        if y == r && k == p {
            assert(em.receivers[em.receivers.len() - 1] == (r, p));
        } else {
            assert(after[y].pin_sources[k] == net[y].pin_sources[k]);
            assert(slot_has_edge(net, y, k));
            let src = net[y].pin_sources[k];
            let j = choose|j: int| 0 <= j < net[src].receivers.len() && net[src].receivers[j] == (y, k as PIN);
            if src == e {
                assert(em.receivers[j] == (y, k as PIN));
            } else {
                assert(after[src].receivers == net[src].receivers);
            }
        }
    }
}

/// Cutting a wire keeps the net well formed.
pub proof fn lemma_unlink_keeps_wf(net: Net, r: ID, p: PIN, e: ID)
    requires
        net_wf(net),
        net.contains_key(e),
        net[e].receivers.contains((r, p)),
    ensures
        net_wf(unlinked(net, r, p, e)),
        unlinked(net, r, p, e).dom() == net.dom(),
        net.contains_key(r),
        r != e,
        p < net[r].pin_sources.len(),
        net[r].pin_sources[p as int] == e,
{
    let after = unlinked(net, r, p, e);
    let i0 = choose|i: int| 0 <= i < net[e].receivers.len() && net[e].receivers[i] == (r, p);
    assert(edge_has_slot(net, e, net[e].receivers[i0]));
    assert(after.dom() =~= net.dom());
    lemma_remove_value_unique(net[e].receivers, (r, p));
    let em = net[e].without_receiver(r, p);
    assert(after[e] == em);
    assert(after[r] == net[r].with_pin_cleared(p));
    assert forall|id: ID| #![trigger after.contains_key(id)] after.contains_key(id) implies after[id].id
        == id && after[id].wf() && id != NULL by {
        assert(net.contains_key(id));
        if id != e && id != r {
            assert(after[id] == net[id]);
        }
    }
    assert forall|x: ID, i: int|
        #![trigger after[x].receivers[i]]
        after.contains_key(x) && 0 <= i < after[x].receivers.len() implies edge_has_slot(
        after,
        x,
        after[x].receivers[i],
    ) by {
        assert(net.contains_key(x));
        let edge = after[x].receivers[i];
        assert(after[x].receivers.contains(edge));
        assert(net[x].receivers.contains(edge));
        let j = choose|j: int| 0 <= j < net[x].receivers.len() && net[x].receivers[j] == edge;
        assert(edge_has_slot(net, x, net[x].receivers[j]));
        if edge.0 == r {
            assert(edge.1 != p);
        } else if edge.0 != e {
            assert(after[edge.0] == net[edge.0]);
        }
    }
    assert forall|y: ID, k: int|
        #![trigger after[y].pin_sources[k]]
        after.contains_key(y) && 0 <= k < after[y].pin_sources.len() && after[y].pin_sources[k]
            != NULL implies slot_has_edge(after, y, k) by {
        assert(net.contains_key(y));
        assert(!(y == r && k == p));
        assert(after[y].pin_sources[k] == net[y].pin_sources[k]);
        assert(slot_has_edge(net, y, k));
        let src = net[y].pin_sources[k];
        if src == e {
            assert((y, k as PIN) != (r, p));
            assert(em.receivers.contains((y, k as PIN)));
        } else {
            assert(after[src].receivers == net[src].receivers);
        }
    }
}

/// Taking out a gate that drives nothing and is driven by nothing keeps
/// the net well formed.
pub proof fn lemma_remove_isolated_keeps_wf(net: Net, id: ID)
    requires
        net_wf(net),
        net.contains_key(id),
        net[id].receivers.len() == 0,
        forall|k: int| 0 <= k < net[id].pin_sources.len() ==> net[id].pin_sources[k] == NULL,
    ensures
        net_wf(net.remove(id)),
{
    let after = net.remove(id);
    assert forall|x: ID, i: int|
        #![trigger after[x].receivers[i]]
        after.contains_key(x) && 0 <= i < after[x].receivers.len() implies edge_has_slot(
        after,
        x,
        after[x].receivers[i],
    ) by {
        assert(net.contains_key(x));
        assert(edge_has_slot(net, x, net[x].receivers[i]));
    }
    assert forall|y: ID, k: int|
        #![trigger after[y].pin_sources[k]]
        after.contains_key(y) && 0 <= k < after[y].pin_sources.len() && after[y].pin_sources[k]
            != NULL implies slot_has_edge(after, y, k) by {
        assert(net.contains_key(y));
        assert(slot_has_edge(net, y, k));
    }
}

/// The two gates agree in everything that an evaluation reads or writes.
pub open spec fn same_levels_gate(a: GateView, b: GateView) -> bool {
    &&& a.state == b.state
    &&& a.pin_values == b.pin_values
    &&& a.clock == b.clock
    &&& a.eval == b.eval
}

/// The two nets hold the same gates, and these agree in everything that an
/// evaluation reads or writes.
pub open spec fn same_levels(a: Net, b: Net) -> bool {
    &&& a.dom() == b.dom()
    &&& forall|id: ID|
        #![trigger a.contains_key(id)]
        a.contains_key(id) ==> same_levels_gate(a[id], b[id])
}

/// Writing formulas along forward edges changes no value.
pub proof fn lemma_deliver_expr_keeps_levels(net: Net, recvs: Seq<(ID, PIN)>, e: Seq<char>)
    ensures
        same_levels(net, deliver_expr(net, recvs, e)),
    decreases recvs.len(),
{
    if recvs.len() > 0 {
        lemma_deliver_expr_keeps_levels(net, recvs.drop_last(), e);
        let prev = deliver_expr(net, recvs.drop_last(), e);
        let next = deliver_expr(net, recvs, e);
        assert(next.dom() =~= prev.dom());
        assert forall|id: ID|
            #![trigger net.contains_key(id)]
            net.contains_key(id) implies same_levels_gate(net[id], next[id]) by {
            assert(prev.contains_key(id));
        }
    }
}

/// A formula traversal changes no value: gates that were settled stay
/// settled.
pub proof fn lemma_expr_run_keeps_levels(net: Net, q: Seq<ID>, actor: ComponentActor, fuel: nat)
    requires
        !actor.on_values(),
    ensures
        same_levels(net, run(net, q, actor, fuel).0),
        net_settled(net) ==> net_settled(run(net, q, actor, fuel).0),
    decreases fuel,
{
    let last = run(net, q, actor, fuel).0;
    if q.len() == 0 || fuel == 0 {
    } else {
        let id = q[0];
        let next = act(net, q.skip(1), id, actor);
        if net.contains_key(id) {
            let g = net[id];
            let e = g.next_expr();
            let base = net.insert(id, GateView { state_expr: e, ..g });
            assert(base.dom() =~= net.dom());
            lemma_deliver_expr_keeps_levels(base, g.receivers, e);
            assert forall|x: ID|
                #![trigger net.contains_key(x)]
                net.contains_key(x) implies same_levels_gate(net[x], next.0[x]) by {
                assert(base.contains_key(x));
            }
        }
        assert(same_levels(net, next.0));
        lemma_expr_run_keeps_levels(next.0, next.1, actor, (fuel - 1) as nat);
        assert forall|x: ID|
            #![trigger net.contains_key(x)]
            net.contains_key(x) implies same_levels_gate(net[x], last[x]) by {
            assert(next.0.contains_key(x));
        }
    }
    if net_settled(net) {
        assert forall|x: ID| #![trigger last.contains_key(x)] last.contains_key(x) implies last[x].settled() by {
            assert(net.contains_key(x));
            assert(same_levels_gate(net[x], last[x]));
        }
    }
}

/// The value on pin `p` of gate `r`.
pub open spec fn pin_value(net: Net, r: ID, p: PIN) -> bool {
    net[r].pin_values[p as int]
}

/// What pin `p` of gate `r` should hold: the output of the component that drives
/// it, or low where nothing drives it.
pub open spec fn source_value(net: Net, r: ID, p: PIN) -> bool {
    if net[r].pin_sources[p as int] != NULL {
        net[net[r].pin_sources[p as int]].state
    } else {
        false
    }
}

/// Every pin holds the output of the component that drives it, and a pin that
/// nothing drives is low.
pub open spec fn values_cached(net: Net) -> bool {
    forall|r: ID, p: PIN|
        net.contains_key(r) && p < net[r].pin_values.len() ==> #[trigger] pin_value(net, r, p)
            == source_value(net, r, p)
}

/// Writing `v` along a list of forward edges leaves every output as it
/// was, and changes the value of a pin exactly where an edge of the list
/// leads to it.
pub proof fn lemma_deliver_pins(net: Net, recvs: Seq<(ID, PIN)>, v: bool)
    ensures
        deliver(net, recvs, v).dom() == net.dom(),
        forall|r: ID|
            #![trigger deliver(net, recvs, v)[r]]
            net.contains_key(r) ==> {
                &&& deliver(net, recvs, v)[r].state == net[r].state
                &&& deliver(net, recvs, v)[r].pin_values.len() == net[r].pin_values.len()
            },
        forall|r: ID, p: PIN|
            net.contains_key(r) && p < net[r].pin_values.len() ==> #[trigger] pin_value(
                deliver(net, recvs, v),
                r,
                p,
            ) == (if recvs.contains((r, p)) {
                v
            } else {
                pin_value(net, r, p)
            }),
    decreases recvs.len(),
{
    let last = deliver(net, recvs, v);
    if recvs.len() == 0 {
        assert forall|e: (ID, PIN)| !(#[trigger] recvs.contains(e)) by {}
    } else {
        let head = recvs.drop_last();
        let prev = deliver(net, head, v);
        let edge = recvs.last();
        lemma_deliver_pins(net, head, v);
        assert(last.dom() =~= prev.dom());
        assert forall|r: ID| #![trigger last[r]] net.contains_key(r) implies {
            &&& last[r].state == net[r].state
            &&& last[r].pin_values.len() == net[r].pin_values.len()
        } by {
            assert(prev.contains_key(r));
            assert(prev[r].state == net[r].state);
        }
        assert forall|r: ID, p: PIN|
            net.contains_key(r) && p < net[r].pin_values.len() implies #[trigger] pin_value(
            last,
            r,
            p,
        ) == (if recvs.contains((r, p)) {
            v
        } else {
            pin_value(net, r, p)
        }) by {
            assert(prev.contains_key(r));
            assert(prev[r].pin_values.len() == net[r].pin_values.len());
            let was = pin_value(prev, r, p);
            if edge == (r, p) {
                assert(recvs[recvs.len() - 1] == (r, p));
            } else {
                assert(pin_value(last, r, p) == was);
                if head.contains((r, p)) {
                    let i = choose|i: int| 0 <= i < head.len() && head[i] == (r, p);
                    assert(recvs[i] == (r, p));
                }
                if recvs.contains((r, p)) {
                    let i = choose|i: int| 0 <= i < recvs.len() && recvs[i] == (r, p);
                    assert(head[i] == (r, p));
                }
            }
        }
    }
}

/// Setting the output of a gate and writing it along its forward edges
/// keeps every pin at the output of its source.
pub proof fn lemma_restate_keeps_cached(net: Net, id: ID, g2: GateView, v: bool)
    requires
        net_wf(net),
        values_cached(net),
        net.contains_key(id),
        g2.state == v,
        g2.pin_values == net[id].pin_values,
        g2.pin_sources == net[id].pin_sources,
        g2.receivers == net[id].receivers,
    ensures
        values_cached(deliver(net.insert(id, g2), net[id].receivers, v)),
        g2.state == net[id].state ==> values_cached(net.insert(id, g2)),
{
    let base = net.insert(id, g2);
    let recvs = net[id].receivers;
    let last = deliver(base, recvs, v);
    lemma_deliver_pins(base, recvs, v);
    lemma_deliver_keeps_wiring(base, recvs, v, Seq::empty());
    assert(base.dom() =~= net.dom());
    assert forall|r: ID, p: PIN|
        last.contains_key(r) && p < last[r].pin_values.len() implies #[trigger] pin_value(
        last,
        r,
        p,
    ) == source_value(last, r, p) by {
        assert(base.contains_key(r));
        assert(net.contains_key(r));
        assert(last[r].pin_sources == base[r].pin_sources);
        assert(base[r].pin_sources == net[r].pin_sources);
        assert(base[r].pin_values == net[r].pin_values);
        assert(pin_value(base, r, p) == pin_value(net, r, p));
        assert(pin_value(net, r, p) == source_value(net, r, p));
        let src = net[r].pin_sources[p as int];
        assert(net[r].wf());
        if recvs.contains((r, p)) {
            let i = choose|i: int| 0 <= i < recvs.len() && recvs[i] == (r, p);
            assert(edge_has_slot(net, id, net[id].receivers[i]));
            assert(src == id);
            assert(last[id].state == base[id].state);
        } else {
            if src != NULL {
                assert(slot_has_edge(net, r, p as int));
                assert(src != id);
                assert(base.contains_key(src));
                assert(last[src].state == base[src].state);
            }
        }
    }
    if g2.state == net[id].state {
        assert forall|r: ID, p: PIN|
            base.contains_key(r) && p < base[r].pin_values.len() implies #[trigger] pin_value(
            base,
            r,
            p,
        ) == source_value(base, r, p) by {
            assert(net.contains_key(r));
            assert(pin_value(net, r, p) == source_value(net, r, p));
            assert(net[r].wf());
            let src = net[r].pin_sources[p as int];
            if src != NULL {
                assert(slot_has_edge(net, r, p as int));
            }
        }
    }
}

/// Nets that agree in wiring and in values agree on whether the pins hold
/// the outputs of their sources.
pub proof fn lemma_levels_keep_cached(a: Net, b: Net)
    requires
        net_wf(a),
        same_wiring(a, b),
        same_levels(a, b),
        values_cached(a),
    ensures
        values_cached(b),
{
    assert forall|r: ID, p: PIN|
        b.contains_key(r) && p < b[r].pin_values.len() implies #[trigger] pin_value(b, r, p)
        == source_value(b, r, p) by {
        assert(a.contains_key(r));
        assert(pin_value(a, r, p) == source_value(a, r, p));
        assert(a[r].wf());
        assert(same_levels_gate(a[r], b[r]));
        assert(same_wiring_gate(a[r], b[r]));
        let src = a[r].pin_sources[p as int];
        if src != NULL {
            assert(slot_has_edge(a, r, p as int));
            assert(same_levels_gate(a[src], b[src]));
        }
    }
}

/// One visit keeps every pin at the output of its source.
pub proof fn lemma_act_keeps_cached(net: Net, q: Seq<ID>, id: ID, actor: ComponentActor)
    requires
        net_wf(net),
        values_cached(net),
    ensures
        values_cached(act(net, q, id, actor).0),
{
    if net.contains_key(id) {
        let g = net[id];
        if actor.on_values() {
            let g2 = g.evaluated();
            lemma_restate_keeps_cached(net, id, g2, g2.state);
        } else {
            let full = seq![id] + q;
            assert(full.skip(1) =~= q);
            assert(full[0] == id);
            let next = act(net, q, id, actor);
            assert(run(next.0, next.1, actor, 0) == next);
            assert(run(net, full, actor, 1) == next);
            lemma_expr_run_keeps_levels(net, full, actor, 1);
            lemma_act_keeps_wiring(net, q, id, actor);
            lemma_levels_keep_cached(net, next.0);
        }
    }
}

/// A traversal keeps every pin at the output of its source.
pub proof fn lemma_run_keeps_cached(net: Net, q: Seq<ID>, actor: ComponentActor, fuel: nat)
    requires
        net_wf(net),
        values_cached(net),
    ensures
        values_cached(run(net, q, actor, fuel).0),
    decreases fuel,
{
    if q.len() == 0 || fuel == 0 {
    } else {
        let next = act(net, q.skip(1), q[0], actor);
        lemma_act_keeps_cached(net, q.skip(1), q[0], actor);
        lemma_act_keeps_wiring(net, q.skip(1), q[0], actor);
        lemma_wiring_keeps_wf(net, next.0);
        lemma_run_keeps_cached(next.0, next.1, actor, (fuel - 1) as nat);
    }
}

/// A new wire takes the output of its source.
pub proof fn lemma_link_keeps_cached(net: Net, r: ID, p: PIN, e: ID)
    requires
        net_wf(net),
        values_cached(net),
        net.contains_key(r),
        net.contains_key(e),
        r != e,
        p < net[r].pin_sources.len(),
    ensures
        values_cached(linked(net, r, p, e)),
{
    let after = linked(net, r, p, e);
    assert(after.dom() =~= net.dom());
    assert(net[r].wf());
    assert(after[e] == net[e].with_receiver(r, p));
    assert(after[r] == net[r].with_source(p, e, net[e].state, net[e].state_expr));
    assert forall|x: ID, k: PIN|
        after.contains_key(x) && k < after[x].pin_values.len() implies #[trigger] pin_value(
        after,
        x,
        k,
    ) == source_value(after, x, k) by {
        assert(net.contains_key(x));
        assert(net[x].wf());
        assert(pin_value(net, x, k) == source_value(net, x, k));
        if x != r && x != e {
            assert(after[x] == net[x]);
        }
        let src = net[x].pin_sources[k as int];
        if x == r && k == p {
            assert(after[r].pin_values[p as int] == net[e].state);
            assert(after[r].pin_sources[p as int] == e);
            assert(after[e].state == net[e].state);
        } else {
            assert(after[x].pin_values[k as int] == net[x].pin_values[k as int]);
            assert(after[x].pin_sources[k as int] == src);
            if src != NULL {
                assert(slot_has_edge(net, x, k as int));
                assert(net.contains_key(src));
                if src == r {
                    assert(after[src].state == net[src].state);
                } else if src == e {
                    assert(after[src].state == net[src].state);
                } else {
                    assert(after[src] == net[src]);
                }
            }
        }
    }
}

/// A pin whose wire was cut is low.
pub proof fn lemma_unlink_keeps_cached(net: Net, r: ID, p: PIN, e: ID)
    requires
        net_wf(net),
        values_cached(net),
        net.contains_key(r),
        net.contains_key(e),
        r != e,
        p < net[r].pin_sources.len(),
    ensures
        values_cached(unlinked(net, r, p, e)),
{
    let after = unlinked(net, r, p, e);
    assert(after.dom() =~= net.dom());
    assert(net[r].wf());
    assert(after[e] == net[e].without_receiver(r, p));
    assert(after[r] == net[r].with_pin_cleared(p));
    assert forall|x: ID, k: PIN|
        after.contains_key(x) && k < after[x].pin_values.len() implies #[trigger] pin_value(
        after,
        x,
        k,
    ) == source_value(after, x, k) by {
        assert(net.contains_key(x));
        assert(net[x].wf());
        assert(pin_value(net, x, k) == source_value(net, x, k));
        if x != r && x != e {
            assert(after[x] == net[x]);
        }
        let src = net[x].pin_sources[k as int];
        if x == r && k == p {
            assert(after[r].pin_values[p as int] == false);
            assert(after[r].pin_sources[p as int] == NULL);
        } else {
            assert(after[x].pin_values[k as int] == net[x].pin_values[k as int]);
            assert(after[x].pin_sources[k as int] == src);
            if src != NULL {
                assert(slot_has_edge(net, x, k as int));
                assert(net.contains_key(src));
                if src == r {
                    assert(after[src].state == net[src].state);
                } else if src == e {
                    assert(after[src].state == net[src].state);
                } else {
                    assert(after[src] == net[src]);
                }
            }
        }
    }
}

/// Taking out a gate that drives nothing keeps every pin at the output of
/// its source.
pub proof fn lemma_remove_isolated_keeps_cached(net: Net, id: ID)
    requires
        net_wf(net),
        values_cached(net),
        net.contains_key(id),
        net[id].receivers.len() == 0,
    ensures
        values_cached(net.remove(id)),
{
    let after = net.remove(id);
    assert forall|x: ID, k: PIN|
        after.contains_key(x) && k < after[x].pin_values.len() implies #[trigger] pin_value(
        after,
        x,
        k,
    ) == source_value(after, x, k) by {
        assert(net.contains_key(x));
        assert(net[x].wf());
        assert(pin_value(net, x, k) == source_value(net, x, k));
        let src = net[x].pin_sources[k as int];
        if src != NULL {
            assert(slot_has_edge(net, x, k as int));
        }
    }
}

} // verus!
