//! The compiling pass and what it leaves behind: every gate that the seeds
//! reach has the formula of its inputs.

use vstd::prelude::*;
use crate::network::{
    act, deliver_expr, edge_has_slot, enqueue_all, lemma_act_keeps_wiring, lemma_enqueue_all,
    lemma_expr_run_keeps_levels, lemma_same_wiring_chain, lemma_wiring_keeps_wf, net_settled,
    net_wf, run, same_levels, same_levels_gate, same_wiring, targets, write_expr, ComponentActor,
    Net,
};
use crate::components::GateView;
use crate::types::{ID, NULL, PIN};

verus! {

/// The formula on the pin that the forward edge `edge` leads to.
pub open spec fn pin_expr(net: Net, edge: (ID, PIN)) -> Seq<char> {
    net[edge.0].pin_exprs[edge.1 as int]
}

/// Gate `id` has the formula of its inputs: its formula is the one that
/// its category forms from the formulas on its pins, and every pin that it
/// drives holds that formula.
pub open spec fn formula_current(net: Net, id: ID) -> bool {
    &&& net.contains_key(id)
    &&& net[id].state_expr == net[id].next_expr()
    &&& forall|i: int|
        0 <= i < net[id].receivers.len() ==> pin_expr(net, #[trigger] net[id].receivers[i])
            == net[id].state_expr
}

/// Gate `m` drives a pin of gate `id`.
pub open spec fn feeds(net: Net, m: ID, id: ID) -> bool {
    net.contains_key(m) && targets(net[m].receivers).contains(id)
}

/// Gate `id` is reached from the seeds in `n` steps along forward edges.
pub open spec fn reached_in(net: Net, seeds: Seq<ID>, id: ID, n: nat) -> bool
    decreases n,
{
    if n == 0 {
        seeds.contains(id) && net.contains_key(id)
    } else {
        let before = (n - 1) as nat;
        exists|m: ID| #[trigger] feeds(net, m, id) && reached_in(net, seeds, m, before)
    }
}

/// What a compiling pass does at gate `id`: the first visit passes the
/// formula on, changed or not; a later visit passes it on where it
/// changed.
pub open spec fn visit_kind(done: Set<ID>, id: ID) -> ComponentActor {
    if done.contains(id) {
        ComponentActor::SetExpressions
    } else {
        ComponentActor::Compile
    }
}

/// The gates visited once gate `id` was visited too; an identifier that
/// the net does not hold is not counted.
pub open spec fn visited_with(net: Net, done: Set<ID>, id: ID) -> Set<ID> {
    if net.contains_key(id) {
        done.insert(id)
    } else {
        done
    }
}

/// The net and the queue after a compiling pass of at most `fuel` visits,
/// where the gates of `done` were visited before: the head of the queue is
/// visited until the queue is empty or the visits are used up.
pub open spec fn compile_run(net: Net, q: Seq<ID>, done: Set<ID>, fuel: nat) -> (Net, Seq<ID>)
    decreases fuel,
{
    if q.len() == 0 || fuel == 0 {
        (net, q)
    } else {
        let next = act(net, q.skip(1), q[0], visit_kind(done, q[0]));
        compile_run(next.0, next.1, visited_with(net, done, q[0]), (fuel - 1) as nat)
    }
}

/// The net after a compiling pass that starts from the seeds `inits` with
/// an empty queue and no gate visited.
pub open spec fn compile_net(net: Net, inits: Seq<ID>, fuel: nat) -> Net {
    compile_run(net, enqueue_all(Seq::empty(), inits), Set::empty(), fuel).0
}

/// Whether that pass emptied its queue within `fuel` visits.
pub open spec fn compile_ends(net: Net, inits: Seq<ID>, fuel: nat) -> bool {
    compile_run(net, enqueue_all(Seq::empty(), inits), Set::empty(), fuel).1.len() == 0
}

/// Where a compiling pass stands: the gates of `done` were visited; each
/// of them that does not wait in the queue has the formula of its pins;
/// every pin that one of them drives holds its formula; and whatever one
/// of them drives, and every seed, was visited or waits in the queue.
pub open spec fn compiling(net: Net, q: Seq<ID>, done: Set<ID>, seeds: Seq<ID>) -> bool {
    &&& net_wf(net)
    &&& forall|id: ID| #[trigger] done.contains(id) ==> net.contains_key(id)
    &&& forall|id: ID|
        #[trigger] done.contains(id) && !q.contains(id) ==> net[id].state_expr
            == net[id].next_expr()
    &&& forall|id: ID, i: int|
        done.contains(id) && 0 <= i < net[id].receivers.len() ==> pin_expr(
            net,
            #[trigger] net[id].receivers[i],
        ) == net[id].state_expr
    &&& forall|m: ID, id: ID|
        done.contains(m) && #[trigger] feeds(net, m, id) ==> done.contains(id) || q.contains(id)
    &&& forall|i: int|
        0 <= i < seeds.len() && net.contains_key(#[trigger] seeds[i]) ==> done.contains(seeds[i])
            || q.contains(seeds[i])
}

/// Writing a formula along forward edges changes the formula on a pin
/// exactly where an edge of the list leads to it, and nothing else.
pub proof fn lemma_deliver_expr_pins(net: Net, recvs: Seq<(ID, PIN)>, e: Seq<char>)
    ensures
        deliver_expr(net, recvs, e).dom() == net.dom(),
        forall|x: ID|
            #![trigger deliver_expr(net, recvs, e)[x]]
            net.contains_key(x) ==> {
                let b = deliver_expr(net, recvs, e)[x];
                &&& b == (GateView { pin_exprs: b.pin_exprs, ..net[x] })
                &&& b.pin_exprs.len() == net[x].pin_exprs.len()
            },
        forall|x: ID, p: PIN|
            net.contains_key(x) && p < net[x].pin_exprs.len() ==> #[trigger] pin_expr(
                deliver_expr(net, recvs, e),
                (x, p),
            ) == (if recvs.contains((x, p)) {
                e
            } else {
                pin_expr(net, (x, p))
            }),
    decreases recvs.len(),
{
    let last = deliver_expr(net, recvs, e);
    if recvs.len() == 0 {
        assert forall|x: ID| #![trigger last[x]] net.contains_key(x) implies last[x] == (GateView {
            pin_exprs: last[x].pin_exprs,
            ..net[x]
        }) by {}
    } else {
        let front = recvs.drop_last();
        let prev = deliver_expr(net, front, e);
        let edge = recvs.last();
        lemma_deliver_expr_pins(net, front, e);
        assert(last == write_expr(prev, edge.0, edge.1, e));
        assert(last.dom() =~= net.dom());
        assert forall|x: ID| #![trigger last[x]] net.contains_key(x) implies {
            &&& last[x] == (GateView { pin_exprs: last[x].pin_exprs, ..net[x] })
            &&& last[x].pin_exprs.len() == net[x].pin_exprs.len()
        } by {
            assert(prev.contains_key(x));
            assert(prev[x] == (GateView { pin_exprs: prev[x].pin_exprs, ..net[x] }));
        }
        assert forall|x: ID, p: PIN|
            net.contains_key(x) && p < net[x].pin_exprs.len() implies #[trigger] pin_expr(
            last,
            (x, p),
        ) == (if recvs.contains((x, p)) {
            e
        } else {
            pin_expr(net, (x, p))
        }) by {
            let k = (x, p);
            assert(prev.contains_key(x));
            assert(prev[x].pin_exprs.len() == net[x].pin_exprs.len());
            assert(pin_expr(prev, k) == (if front.contains(k) {
                e
            } else {
                pin_expr(net, k)
            }));
            if front.contains(k) {
                let i = choose|i: int| 0 <= i < front.len() && front[i] == k;
                assert(recvs[i] == k);
            }
            if edge == k {
                assert(recvs[recvs.len() - 1] == k);
            }
            if recvs.contains(k) && edge != k {
                let i = choose|i: int| 0 <= i < recvs.len() && recvs[i] == k;
                assert(front[i] == k);
            }
        }
    }
}

/// A formula traversal leaves the formula on a pin that nothing drives as
/// it is.
pub proof fn lemma_formulas_miss_free_pin(
    net: Net,
    q: Seq<ID>,
    actor: ComponentActor,
    fuel: nat,
    r: ID,
    p: PIN,
)
    requires
        net_wf(net),
        !actor.on_values(),
        net.contains_key(r),
        p < net[r].pin_sources.len(),
        net[r].pin_sources[p as int] == NULL,
    ensures
        pin_expr(run(net, q, actor, fuel).0, (r, p)) == pin_expr(net, (r, p)),
    decreases fuel,
{
    if q.len() == 0 || fuel == 0 {
    } else {
        let id = q[0];
        let next = act(net, q.skip(1), id, actor);
        lemma_act_keeps_wiring(net, q.skip(1), id, actor);
        lemma_wiring_keeps_wf(net, next.0);
        if net.contains_key(id) && next.0 != net {
            let g = net[id];
            let e = g.next_expr();
            let base = net.insert(id, GateView { state_expr: e, ..g });
            assert(next.0 == deliver_expr(base, g.receivers, e));
            lemma_deliver_expr_pins(base, g.receivers, e);
            assert(base.contains_key(r));
            assert(net[r].wf());
            assert(base[r].pin_exprs == net[r].pin_exprs);
            if g.receivers.contains((r, p)) {
                let i = choose|i: int| 0 <= i < g.receivers.len() && g.receivers[i] == (r, p);
                assert(edge_has_slot(net, id, net[id].receivers[i]));
            }
            assert(pin_expr(next.0, (r, p)) == pin_expr(base, (r, p)));
        }
        assert(net.contains_key(r));
        assert(crate::network::same_wiring_gate(net[r], next.0[r]));
        lemma_formulas_miss_free_pin(next.0, next.1, actor, (fuel - 1) as nat, r, p);
    }
}

/// One compiling visit keeps the pass as described, with the visited gate
/// among those done.
pub proof fn lemma_compile_visit(net: Net, q: Seq<ID>, done: Set<ID>, seeds: Seq<ID>)
    requires
        q.len() > 0,
        compiling(net, q, done, seeds),
    ensures
        compiling(
            act(net, q.skip(1), q[0], visit_kind(done, q[0])).0,
            act(net, q.skip(1), q[0], visit_kind(done, q[0])).1,
            visited_with(net, done, q[0]),
            seeds,
        ),
{
    let id = q[0];
    let rest = q.skip(1);
    let next = act(net, rest, id, visit_kind(done, id));
    assert forall|x: ID| q.contains(x) && x != id implies rest.contains(x) by {
        let i = choose|i: int| 0 <= i < q.len() && q[i] == x;
        assert(rest[i - 1] == x);
    }
    assert forall|x: ID| rest.contains(x) implies q.contains(x) by {
        let i = choose|i: int| 0 <= i < rest.len() && rest[i] == x;
        assert(q[i + 1] == x);
    }
    if !net.contains_key(id) {
        assert forall|m: ID, x: ID| done.contains(m) && #[trigger] feeds(net, m, x) implies done.contains(
            x,
        ) || rest.contains(x) by {
            let ids = targets(net[m].receivers);
            let i = choose|i: int| 0 <= i < ids.len() && ids[i] == x;
            assert(edge_has_slot(net, m, net[m].receivers[i]));
        }
    } else if done.contains(id) && net[id].next_expr() == net[id].state_expr {
        // a later visit that found the formula unchanged
        assert(next.0 == net && next.1 == rest);
        assert(done.insert(id) =~= done);
        assert forall|m: ID, x: ID| done.contains(m) && #[trigger] feeds(net, m, x) implies done.contains(
            x,
        ) || rest.contains(x) by {
            if !done.contains(x) {
                assert(q.contains(x));
            }
        }
        assert forall|i: int| 0 <= i < seeds.len() && net.contains_key(#[trigger] seeds[i]) implies done.contains(
            seeds[i],
        ) || rest.contains(seeds[i]) by {
            if !done.contains(seeds[i]) {
                assert(q.contains(seeds[i]));
            }
        }
    } else {
        let g = net[id];
        let e = g.next_expr();
        let base = net.insert(id, GateView { state_expr: e, ..g });
        let net2 = next.0;
        let q2 = next.1;
        let done2 = done.insert(id);
        assert(net2 == deliver_expr(base, g.receivers, e));
        assert(q2 == enqueue_all(rest, targets(g.receivers)));
        lemma_deliver_expr_pins(base, g.receivers, e);
        lemma_enqueue_all(rest, targets(g.receivers));
        lemma_act_keeps_wiring(net, rest, id, visit_kind(done, id));
        lemma_wiring_keeps_wf(net, net2);
        assert(base.dom() =~= net.dom());
        assert forall|x: ID| net.contains_key(x) implies {
            &&& net2.contains_key(x)
            &&& base.contains_key(x)
            &&& net2[x] == (GateView { pin_exprs: net2[x].pin_exprs, ..base[x] })
            &&& net2[x].receivers == net[x].receivers
            &&& net2[x].pin_exprs.len() == net[x].pin_exprs.len()
        } by {
            assert(base.contains_key(x));
            assert(net2[x] == (GateView { pin_exprs: net2[x].pin_exprs, ..base[x] }));
        }
        // no edge of the visited gate leads back to it
        assert forall|p: PIN| !g.receivers.contains((id, p)) by {
            if g.receivers.contains((id, p)) {
                let i = choose|i: int| 0 <= i < g.receivers.len() && g.receivers[i] == (id, p);
                assert(edge_has_slot(net, id, net[id].receivers[i]));
            }
        }
        // a pin written by this visit is driven by the visited gate alone
        assert forall|m: ID, i: int|
            net.contains_key(m) && m != id && 0 <= i < net[m].receivers.len() implies !g.receivers.contains(
            #[trigger] net[m].receivers[i],
        ) by {
            let edge = net[m].receivers[i];
            assert(edge_has_slot(net, m, edge));
            if g.receivers.contains(edge) {
                let j = choose|j: int| 0 <= j < g.receivers.len() && g.receivers[j] == edge;
                assert(edge_has_slot(net, id, net[id].receivers[j]));
            }
        }
        assert forall|x: ID| #[trigger] done2.contains(x) && !q2.contains(x) implies net2[x].state_expr
            == net2[x].next_expr() by {
            assert(net.contains_key(x));
            assert(net2[x].pin_exprs =~= base[x].pin_exprs) by {
                assert forall|p: int| 0 <= p < base[x].pin_exprs.len() implies net2[x].pin_exprs[p]
                    == base[x].pin_exprs[p] by {
                    let k = (x, p as PIN);
                    assert(net[x].wf());
                    assert(pin_expr(net2, k) == (if g.receivers.contains(k) {
                        e
                    } else {
                        pin_expr(base, k)
                    }));
                    if g.receivers.contains(k) {
                        let i = choose|i: int| 0 <= i < g.receivers.len() && g.receivers[i] == k;
                        assert(targets(g.receivers)[i] == x);
                        assert(targets(g.receivers).contains(x));
                    }
                }
            }
            if x != id {
                assert(done.contains(x));
                assert(!rest.contains(x));
                assert(!q.contains(x));
            }
        }
        assert forall|x: ID, i: int|
            done2.contains(x) && 0 <= i < net2[x].receivers.len() implies pin_expr(
            net2,
            #[trigger] net2[x].receivers[i],
        ) == net2[x].state_expr by {
            assert(net.contains_key(x));
            let edge = net[x].receivers[i];
            assert(edge_has_slot(net, x, edge));
            assert(net.contains_key(edge.0));
            assert(net[edge.0].wf());
            assert(pin_expr(net2, edge) == (if g.receivers.contains(edge) {
                e
            } else {
                pin_expr(base, edge)
            }));
            if x != id {
                assert(done.contains(x));
                assert(!g.receivers.contains(net[x].receivers[i]));
                assert(edge.0 != id || pin_expr(base, edge) == pin_expr(net, edge));
            }
        }
        assert forall|m: ID, x: ID| done2.contains(m) && #[trigger] feeds(net2, m, x) implies done2.contains(
            x,
        ) || q2.contains(x) by {
            assert(net.contains_key(m));
            assert(feeds(net, m, x));
            if m != id {
                assert(done.contains(x) || q.contains(x));
                if !done.contains(x) && x != id {
                    assert(rest.contains(x));
                }
            }
        }
        assert forall|i: int| 0 <= i < seeds.len() && net2.contains_key(#[trigger] seeds[i]) implies done2.contains(
            seeds[i],
        ) || q2.contains(seeds[i]) by {
            assert(net.contains_key(seeds[i]));
            if !done.contains(seeds[i]) && seeds[i] != id {
                assert(rest.contains(seeds[i]));
            }
        }
    }
}

/// A compiling pass that empties its queue ends as described with an empty
/// queue, for the gates that it visited.
pub proof fn lemma_compile_run(net: Net, q: Seq<ID>, done: Set<ID>, seeds: Seq<ID>, fuel: nat) -> (all: Set<ID>)
    requires
        compiling(net, q, done, seeds),
    ensures
        compile_run(net, q, done, fuel).1.len() == 0 ==> compiling(
            compile_run(net, q, done, fuel).0,
            Seq::empty(),
            all,
            seeds,
        ),
    decreases fuel,
{
    if q.len() == 0 {
        assert(q =~= Seq::empty());
        done
    } else if fuel == 0 {
        done
    } else {
        let next = act(net, q.skip(1), q[0], visit_kind(done, q[0]));
        lemma_compile_visit(net, q, done, seeds);
        lemma_compile_run(next.0, next.1, visited_with(net, done, q[0]), seeds, (fuel - 1) as nat)
    }
}

/// A compiling pass leaves the wiring, the outputs and the pin values as
/// they are: gates that were settled stay settled.
pub proof fn lemma_compile_run_frame(net: Net, q: Seq<ID>, done: Set<ID>, fuel: nat)
    ensures
        same_wiring(net, compile_run(net, q, done, fuel).0),
        same_levels(net, compile_run(net, q, done, fuel).0),
        net_settled(net) ==> net_settled(compile_run(net, q, done, fuel).0),
    decreases fuel,
{
    let last = compile_run(net, q, done, fuel).0;
    if q.len() == 0 || fuel == 0 {
    } else {
        let kind = visit_kind(done, q[0]);
        let rest = q.skip(1);
        let next = act(net, rest, q[0], kind);
        lemma_act_keeps_wiring(net, rest, q[0], kind);
        assert(run(next.0, next.1, kind, 0) == next);
        assert(run(net, q, kind, 1) == next);
        lemma_expr_run_keeps_levels(net, q, kind, 1);
        lemma_compile_run_frame(next.0, next.1, visited_with(net, done, q[0]), (fuel - 1) as nat);
        lemma_same_wiring_chain(net, next.0, last);
        assert forall|x: ID|
            #![trigger net.contains_key(x)]
            net.contains_key(x) implies same_levels_gate(net[x], last[x]) by {
            assert(next.0.contains_key(x));
        }
    }
}

/// What is reached from the seeds was visited by a compiling pass that
/// emptied its queue.
pub proof fn lemma_reached_is_done(net: Net, done: Set<ID>, seeds: Seq<ID>, id: ID, n: nat)
    requires
        compiling(net, Seq::empty(), done, seeds),
        reached_in(net, seeds, id, n),
    ensures
        done.contains(id),
    decreases n,
{
    let none = Seq::<ID>::empty();
    if n == 0 {
        let i = choose|i: int| 0 <= i < seeds.len() && seeds[i] == id;
        assert(net.contains_key(seeds[i]));
        assert(done.contains(seeds[i]) || none.contains(seeds[i]));
    } else {
        let before = (n - 1) as nat;
        let m = choose|m: ID| #[trigger] feeds(net, m, id) && reached_in(net, seeds, m, before);
        lemma_reached_is_done(net, done, seeds, m, before);
        assert(done.contains(id) || none.contains(id));
    }
}

/// Nets of one wiring reach the same gates from the same seeds.
pub proof fn lemma_reached_same_wiring(a: Net, b: Net, seeds: Seq<ID>, id: ID, n: nat)
    requires
        same_wiring(a, b),
        reached_in(a, seeds, id, n),
    ensures
        reached_in(b, seeds, id, n),
    decreases n,
{
    if n == 0 {
        assert(a.dom().contains(id));
        assert(b.contains_key(id));
    } else {
        let before = (n - 1) as nat;
        let m = choose|m: ID| #[trigger] feeds(a, m, id) && reached_in(a, seeds, m, before);
        lemma_reached_same_wiring(a, b, seeds, m, before);
        assert(a.contains_key(m));
        assert(b.dom().contains(m));
        assert(feeds(b, m, id));
    }
}

/// After a compiling pass that emptied its queue, every gate that the
/// seeds reach along forward edges has the formula of its inputs, and the
/// pins that it drives hold its formula.
pub proof fn lemma_compile_current(net: Net, seeds: Seq<ID>, fuel: nat, id: ID, n: nat)
    requires
        net_wf(net),
        compile_ends(net, seeds, fuel),
        reached_in(net, seeds, id, n),
    ensures
        formula_current(compile_net(net, seeds, fuel), id),
{
    let q = enqueue_all(Seq::empty(), seeds);
    let last = compile_net(net, seeds, fuel);
    lemma_enqueue_all(Seq::empty(), seeds);
    let none = Set::<ID>::empty();
    assert(compiling(net, q, none, seeds)) by {
        assert forall|i: int| 0 <= i < seeds.len() && net.contains_key(#[trigger] seeds[i]) implies none.contains(
            seeds[i],
        ) || q.contains(seeds[i]) by {
            assert(seeds.contains(seeds[i]));
        }
    }
    let done = lemma_compile_run(net, q, none, seeds, fuel);
    lemma_compile_run_frame(net, q, none, fuel);
    lemma_reached_same_wiring(net, last, seeds, id, n);
    lemma_reached_is_done(last, done, seeds, id, n);
    let empty = Seq::<ID>::empty();
    assert(!empty.contains(id));
}

} // verus!
