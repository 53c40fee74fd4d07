//! What holds of every circuit: the wiring is consistent in both
//! directions, a traversal that ends leaves the gates it reached settled,
//! the work queue never repeats its tail, and edits and passes compose as
//! one expects.

use vstd::prelude::*;
use crate::circuit::{
    lemma_ordered_by_sorted, lemma_rows_read, lemma_table_gates, limit, CircuitView,
};
use crate::combinational::lemma_value_run_frame;
use crate::components::GateView;
use crate::formulas::{lemma_formulas_miss_free_pin, pin_expr};
use crate::network::{
    act, coalesced, edge_has_slot, enqueue_all, lemma_enqueue_all, lemma_run_keeps_coalesced,
    lemma_run_keeps_wiring, lemma_run_on_settled, lemma_run_settles, lemma_wiring_keeps_wf,
    linked, lemma_link_keeps_wf, lemma_unlink_keeps_wf, net_wf, run, same_wiring,
    settles, slot_has_edge, traverse, unlinked, ComponentActor, Net,
};
use crate::network::{
    level_on, lemma_link_keeps_cached, lemma_link_then_unlink, lemma_run_keeps_cached,
    lemma_same_wiring_chain, lemma_unlink_keeps_cached, pin_value, source_value,
};
use crate::types::{CompType, ID, NULL, PIN};
use crate::utils::lex_leq;

verus! {

/// In a well-formed circuit, pin `p` of gate `r` names gate `e` as its
/// source exactly where `e` lists the forward edge to pin `p` of `r`.
pub proof fn lemma_edges_bidirectional(c: CircuitView, e: ID, r: ID, p: PIN)
    requires
        c.wf(),
        c.gates.contains_key(e),
    ensures
        (c.gates.contains_key(r) && p < c.gates[r].pin_sources.len()
            && c.gates[r].pin_sources[p as int] == e) <==> c.gates[e].receivers.contains((r, p)),
{
    let net = c.gates;
    if net[e].receivers.contains((r, p)) {
        let i = choose|i: int| 0 <= i < net[e].receivers.len() && net[e].receivers[i] == (r, p);
        assert(edge_has_slot(net, e, net[e].receivers[i]));
    }
    if net.contains_key(r) && p < net[r].pin_sources.len() && net[r].pin_sources[p as int] == e {
        assert(net[r].pin_sources[p as int] != NULL);
        assert(slot_has_edge(net, r, p as int));
    }
}

/// In a well-formed circuit every pin holds the output of the component that
/// drives it, and a pin that nothing drives is low.
pub proof fn lemma_pins_hold_sources(c: CircuitView, r: ID, p: PIN)
    requires
        c.wf(),
        c.gates.contains_key(r),
        p < c.gates[r].pin_values.len(),
    ensures
        c.gates[r].pin_values[p as int] == if c.gates[r].pin_sources[p as int] != NULL {
            c.gates[c.gates[r].pin_sources[p as int]].state
        } else {
            false
        },
{
    assert(crate::network::pin_value(c.gates, r, p) == crate::network::source_value(
        c.gates,
        r,
        p,
    ));
}

/// A settled gate that is not an input either is sequential and holds no
/// clock edge, or has the output that its logic gives for its pins.
pub proof fn lemma_settled_gate(g: GateView)
    requires
        g.wf(),
        g.settled(),
        g.comp_type != CompType::Input,
    ensures
        if g.comp_type == CompType::Sequential {
            !g.triggered()
        } else {
            g.state == g.eval.apply(g.pin_values, g.state)
        },
{
}

/// After a value visit the visited gate has the output that its logic gives
/// for its pins and its output before the visit; a sequential gate that
/// holds no clock edge keeps its output.
pub proof fn lemma_visit_evaluates(net: Net, q: Seq<ID>, id: ID, actor: ComponentActor)
    requires
        net_wf(net),
        net.contains_key(id),
        actor.on_values(),
    ensures
        act(net, q, id, actor).0.contains_key(id),
        act(net, q, id, actor).0[id].state == if net[id].clock is Some && !net[id].triggered() {
            net[id].state
        } else {
            net[id].eval.apply(net[id].pin_values, net[id].state)
        },
{
    let g = net[id];
    let g2 = g.evaluated();
    let base = net.insert(id, g2);
    let ids = crate::network::targets(g.receivers);
    assert(!ids.contains(id)) by {
        if ids.contains(id) {
            let i = choose|i: int| 0 <= i < ids.len() && ids[i] == id;
            assert(edge_has_slot(net, id, g.receivers[i]));
        }
    }
    crate::network::lemma_deliver_misses(base, g.receivers, g2.state, id);
}

/// A value traversal that empties its queue leaves settled every gate of
/// `s`, where each gate of `s` that was not settled is among the seeds and
/// the gates of `s` without an edge detector have level logic.
pub proof fn lemma_traverse_settles(net: Net, inits: Seq<ID>, actor: ComponentActor, s: Set<ID>)
    requires
        net_wf(net),
        level_on(net, s),
        actor.on_values(),
        forall|x: ID|
            #![trigger net.contains_key(x)]
            net.contains_key(x) && s.contains(x) && !net[x].settled() ==> inits.contains(x),
        settles(net, inits, actor, limit()),
    ensures
        forall|x: ID|
            #![trigger traverse(net, inits, actor, limit()).contains_key(x)]
            traverse(net, inits, actor, limit()).contains_key(x) && s.contains(x) ==> traverse(
                net,
                inits,
                actor,
                limit(),
            )[x].settled(),
{
    lemma_enqueue_all(Seq::empty(), inits);
    lemma_run_settles(net, enqueue_all(Seq::empty(), inits), actor, limit(), s);
}

/// At no step of a traversal does the work queue hold the same identifier
/// twice in a row, whatever the seeds and however many visits were made.
pub proof fn lemma_queue_never_repeats(net: Net, inits: Seq<ID>, actor: ComponentActor, steps: nat)
    ensures
        coalesced(run(net, enqueue_all(Seq::empty(), inits), actor, steps).1),
{
    lemma_enqueue_all(Seq::empty(), inits);
    lemma_run_keeps_coalesced(net, enqueue_all(Seq::empty(), inits), actor, steps);
}

/// Wiring gate `e` to pin `p` of gate `r` and cutting that wire again,
/// where both calls succeed, leaves the wiring of the whole circuit as it
/// was before: the pin is driven by nothing, is low and carries no
/// formula, the receiver has as many pins as before, and `e` lists the
/// forward edges that it listed before, in their order.
pub proof fn lemma_connect_disconnect_restores(c: CircuitView, r: ID, p: PIN, e: ID)
    requires
        c.wf(),
        c.connect_fault(r, p, e) is None,
        c.connect_settles(r, p, e),
        c.connected(r, p, e).disconnect_settles(r, p, e),
    ensures
        c.connected(r, p, e).disconnect_fault(r, p, e) is None,
        c.connected(r, p, e).disconnected(r, p, e).gates[r].pin_sources[p as int] == NULL,
        c.connected(r, p, e).disconnected(r, p, e).gates[e].receivers == c.gates[e].receivers,
        !c.connected(r, p, e).disconnected(r, p, e).gates[r].pin_values[p as int],
        c.connected(r, p, e).disconnected(r, p, e).gates[r].pin_exprs[p as int] == Seq::<char>::empty(),
        c.connected(r, p, e).disconnected(r, p, e).gates[r].num_pins() == c.gates[r].num_pins(),
        same_wiring(c.gates, c.connected(r, p, e).disconnected(r, p, e).gates),
        c.connected(r, p, e).disconnected(r, p, e).wf(),
{
    let net0 = c.gates;
    let net1 = linked(net0, r, p, e);
    lemma_link_keeps_wf(net0, r, p, e);
    lemma_link_keeps_cached(net0, r, p, e);
    let q = enqueue_all(Seq::empty(), seq![r]);
    let mid = traverse(net1, seq![r], ComponentActor::UpdateState, limit());
    lemma_run_keeps_wiring(net1, q, ComponentActor::UpdateState, limit());
    lemma_run_keeps_cached(net1, q, ComponentActor::UpdateState, limit());
    lemma_wiring_keeps_wf(net1, mid);
    let c1 = c.connected(r, p, e);
    let net2 = c1.gates;
    assert(net2 == traverse(mid, seq![r], ComponentActor::SetExpressions, limit()));
    lemma_run_keeps_wiring(mid, q, ComponentActor::SetExpressions, limit());
    lemma_run_keeps_cached(mid, q, ComponentActor::SetExpressions, limit());
    lemma_same_wiring_chain(net1, mid, net2);
    lemma_wiring_keeps_wf(net1, net2);
    lemma_link_then_unlink(net0, net2, r, p, e);
    let net3 = unlinked(net2, r, p, e);
    lemma_unlink_keeps_wf(net2, r, p, e);
    lemma_unlink_keeps_cached(net2, r, p, e);
    let mid2 = traverse(net3, seq![r], ComponentActor::UpdateState, limit());
    lemma_run_keeps_wiring(net3, q, ComponentActor::UpdateState, limit());
    lemma_run_keeps_cached(net3, q, ComponentActor::UpdateState, limit());
    lemma_wiring_keeps_wf(net3, mid2);
    let net4 = c1.disconnected(r, p, e).gates;
    assert(net4 == traverse(mid2, seq![r], ComponentActor::SetExpressions, limit()));
    lemma_run_keeps_wiring(mid2, q, ComponentActor::SetExpressions, limit());
    lemma_run_keeps_cached(mid2, q, ComponentActor::SetExpressions, limit());
    lemma_same_wiring_chain(net3, mid2, net4);
    lemma_same_wiring_chain(net0, net3, net4);
    lemma_wiring_keeps_wf(net3, net4);
    assert(net0.contains_key(e) && net0.contains_key(r));
    assert(net4.contains_key(r));
    assert(net4[r].pin_sources[p as int] == NULL);
    assert(pin_value(net4, r, p) == source_value(net4, r, p));
    assert(net2.contains_key(r));
    assert(net2[r].wf());
    assert(pin_expr(net3, (r, p)) == Seq::<char>::empty());
    lemma_value_run_frame(net3, q, ComponentActor::UpdateState, limit());
    assert(net3.contains_key(r));
    assert(pin_expr(mid2, (r, p)) == pin_expr(net3, (r, p)));
    assert(mid2.contains_key(r));
    assert(crate::network::same_wiring_gate(net3[r], mid2[r]));
    lemma_formulas_miss_free_pin(mid2, q, ComponentActor::SetExpressions, limit(), r, p);
    assert(crate::network::same_wiring_gate(net0[r], net4[r]));
    assert forall|id: ID|
        #![trigger net4.contains_key(id)]
        net4.contains_key(id) implies 0 < id <= c.last_id by {
        assert(net0.contains_key(id));
    }
    assert forall|i: int| 0 <= i < c.outputs.len() implies net4.contains_key(
        #[trigger] c.outputs[i],
    ) by {
        assert(net0.contains_key(c.outputs[i]));
    }
}

/// Circuits of the same wiring, clock source and identifiers have the same
/// drivers.
pub proof fn lemma_drivers_of_same_wiring(a: CircuitView, b: CircuitView, n: int)
    requires
        same_wiring(a.gates, b.gates),
        a.clk == b.clk,
    ensures
        a.drivers_upto(n) == b.drivers_upto(n),
    decreases n,
{
    if n > 0 {
        lemma_drivers_of_same_wiring(a, b, n - 1);
        if a.gates.contains_key(n as ID) {
            assert(b.gates.contains_key(n as ID));
        } else {
            assert(!b.gates.dom().contains(n as ID));
        }
    }
}

/// What a queue holds after seeds were scheduled on an empty queue is
/// among the seeds.
pub proof fn lemma_seeds_only(ids: Seq<ID>)
    ensures
        forall|i: int|
            0 <= i < enqueue_all(Seq::empty(), ids).len() ==> ids.contains(
                #[trigger] enqueue_all(Seq::empty(), ids)[i],
            ),
    decreases ids.len(),
{
    if ids.len() > 0 {
        lemma_seeds_only(ids.drop_last());
        let prev = enqueue_all(Seq::empty(), ids.drop_last());
        let all = enqueue_all(Seq::empty(), ids);
        assert forall|i: int| 0 <= i < all.len() implies ids.contains(#[trigger] all[i]) by {
            if i < prev.len() {
                assert(all[i] == prev[i]);
                assert(ids.drop_last().contains(prev[i]));
                let k = choose|k: int| 0 <= k < ids.drop_last().len() && ids.drop_last()[k] == prev[i];
                assert(ids[k] == prev[i]);
            } else {
                assert(all[i] == ids[ids.len() - 1]);
            }
        }
    }
}

/// Scheduling shortens no queue.
pub proof fn lemma_enqueue_all_grows(q: Seq<ID>, ids: Seq<ID>)
    ensures
        enqueue_all(q, ids).len() >= q.len(),
    decreases ids.len(),
{
    if ids.len() > 0 {
        lemma_enqueue_all_grows(q, ids.drop_last());
    }
}

/// A traversal that empties its queue had at least one visit for each
/// identifier that waited at its start.
pub proof fn lemma_emptying_visits_all(net: Net, q: Seq<ID>, actor: ComponentActor, fuel: nat)
    requires
        run(net, q, actor, fuel).1.len() == 0,
    ensures
        q.len() <= fuel,
    decreases fuel,
{
    if q.len() > 0 && fuel > 0 {
        let next = act(net, q.skip(1), q[0], actor);
        if net.contains_key(q[0]) {
            lemma_enqueue_all_grows(q.skip(1), crate::network::targets(net[q[0]].receivers));
        }
        lemma_emptying_visits_all(next.0, next.1, actor, (fuel - 1) as nat);
    }
}

/// A second refresh right after a refresh that emptied its queue changes
/// nothing: no output, no pin, no wire, and its queue is empty again. It
/// is asked that the drivers without an edge detector have level logic,
/// as every input that holds its output has; of the other gates nothing
/// is asked.
pub proof fn lemma_refresh_twice(c: CircuitView)
    requires
        c.wf(),
        c.drivers_level(),
        settles(c.gates, c.drivers(), ComponentActor::UpdateState, limit()),
    ensures
        c.refreshed().refreshed() == c.refreshed(),
        settles(c.refreshed().gates, c.refreshed().drivers(), ComponentActor::UpdateState, limit()),
{
    let seeds = c.drivers();
    let q = enqueue_all(Seq::empty(), seeds);
    let once = c.refreshed();
    lemma_enqueue_all(Seq::empty(), seeds);
    let s = Set::new(|x: ID| seeds.contains(x));
    lemma_run_settles(c.gates, q, ComponentActor::UpdateState, limit(), s);
    lemma_run_keeps_wiring(c.gates, q, ComponentActor::UpdateState, limit());
    lemma_drivers_of_same_wiring(c, once, c.last_id as int);
    assert(once.drivers() == seeds);
    lemma_seeds_only(seeds);
    assert forall|i: int| 0 <= i < q.len() && once.gates.contains_key(#[trigger] q[i])
        implies once.gates[q[i]].settled() by {
        assert(seeds.contains(q[i]));
        assert(s.contains(q[i]));
    }
    lemma_run_on_settled(once.gates, q, limit());
    lemma_emptying_visits_all(c.gates, q, ComponentActor::UpdateState, limit());
}

/// The truth table reads as numbers: its columns are the formulas
/// of the drivers in order and then the labels of the tracked outputs in
/// order; it has as many columns as there are drivers and tracked outputs;
/// and in row `n` the columns of the drivers hold the binary digits of
/// `n`, the most significant first, and every column holds a `0` or a
/// `1`.
pub proof fn lemma_truth_table_reads(c: CircuitView, total: nat, n: int, j: int)
    requires
        c.wf(),
        0 <= n < total,
        0 <= j < c.drivers().len() + c.outputs.len(),
    ensures
        c.truth_cols().len() == c.drivers().len() + c.outputs.len(),
        forall|a: int, b: int|
            0 <= a < b < c.drivers().len() ==> lex_leq(c.truth_cols()[a], c.truth_cols()[b]),
        forall|a: int, b: int|
            c.drivers().len() <= a < b < c.truth_cols().len() ==> lex_leq(
                c.truth_cols()[a],
                c.truth_cols()[b],
            ),
        c.truth_plan().rows(c.gates, total).0.len() == total,
        c.truth_plan().rows(c.gates, total).0[n].len() == c.truth_cols().len(),
        c.truth_plan().rows(c.gates, total).0[n][j] == '0' || c.truth_plan().rows(
            c.gates,
            total,
        ).0[n][j] == '1',
        j < c.drivers().len() ==> (c.truth_plan().rows(c.gates, total).0[n][j] == '1'
            <==> crate::table::bit_of(n as nat, (c.drivers().len() - 1 - j) as nat)),
{
    lemma_table_gates(c);
    lemma_ordered_by_sorted(c.formula_of(), c.drivers());
    lemma_ordered_by_sorted(c.label_of(), c.outputs);
    lemma_rows_read(c.truth_plan(), c.gates, total, n, j);
    let k = c.drivers().len() as int;
    let cols = c.truth_cols();
    assert forall|a: int, b: int| 0 <= a < b < k implies lex_leq(cols[a], cols[b]) by {
        assert(cols[a] == c.formula_of()(c.table_drivers()[a]));
        assert(cols[b] == c.formula_of()(c.table_drivers()[b]));
    }
    assert forall|a: int, b: int| k <= a < b < cols.len() implies lex_leq(cols[a], cols[b]) by {
        assert(cols[a] == c.label_of()(c.table_outputs()[a - k]));
        assert(cols[b] == c.label_of()(c.table_outputs()[b - k]));
    }
}

/// The drivers among the identifiers up to `n` are listed in ascending
/// order, and a gate is listed exactly where it is a driver.
pub proof fn lemma_drivers_upto(c: CircuitView, n: int)
    requires
        n <= i32::MAX,
    ensures
        forall|id: ID|
            #![trigger c.drivers_upto(n).contains(id)]
            #![trigger c.is_driver(id)]
            c.drivers_upto(n).contains(id) <==> c.is_driver(id) && 1 <= id <= n,
        forall|i: int, j: int|
            0 <= i < j < c.drivers_upto(n).len() ==> c.drivers_upto(n)[i] < c.drivers_upto(n)[j],
    decreases n,
{
    let all = c.drivers_upto(n);
    if n <= 0 {
        assert forall|id: ID| !all.contains(id) by {}
    } else {
        lemma_drivers_upto(c, n - 1);
        let prev = c.drivers_upto(n - 1);
        let top = n as ID;
        assert(top == n);
        assert forall|id: ID| all.contains(id) <==> c.is_driver(id) && 1 <= id <= n by {
            if all.contains(id) {
                let i = choose|i: int| 0 <= i < all.len() && all[i] == id;
                if c.is_driver(top) {
                    assert(all == prev.push(top));
                    if i < prev.len() {
                        assert(prev[i] == id);
                        assert(prev.contains(id));
                    } else {
                        assert(id == top);
                    }
                } else {
                    assert(all == prev);
                    assert(prev.contains(id));
                }
            }
            if c.is_driver(id) && 1 <= id <= n {
                if id == top {
                    assert(all == prev.push(top));
                    assert(all[all.len() - 1] == id);
                } else {
                    assert(prev.contains(id));
                    let i = choose|i: int| 0 <= i < prev.len() && prev[i] == id;
                    if c.is_driver(top) {
                        assert(all == prev.push(top));
                    }
                    assert(all[i] == id);
                }
            }
        }
        assert forall|i: int, j: int| 0 <= i < j < all.len() implies all[i] < all[j] by {
            if c.is_driver(top) {
                assert(all == prev.push(top));
                if j == prev.len() {
                    let low = prev[i];
                    assert(prev.contains(low));
                    assert(c.is_driver(low) && 1 <= low <= n - 1);
                    assert(all[i] == low);
                    assert(all[j] == top);
                } else {
                    assert(all[i] == prev[i]);
                    assert(all[j] == prev[j]);
                    assert(prev[i] < prev[j]);
                }
            } else {
                assert(all == prev);
                assert(prev[i] < prev[j]);
            }
        }
    }
}

/// The drivers of a circuit are its inputs and its sequential gates but
/// for the clock source, each listed once, in ascending order of
/// identifier.
pub proof fn lemma_drivers_characterised(c: CircuitView)
    requires
        c.wf(),
    ensures
        forall|id: ID|
            #![trigger c.drivers().contains(id)]
            #![trigger c.is_driver(id)]
            c.drivers().contains(id) <==> c.is_driver(id),
        forall|i: int, j: int|
            0 <= i < j < c.drivers().len() ==> c.drivers()[i] < c.drivers()[j],
{
    lemma_drivers_upto(c, c.last_id as int);
    assert forall|id: ID| c.drivers().contains(id) <==> c.is_driver(id) by {
        if c.is_driver(id) {
            assert(c.gates.contains_key(id));
        }
    }
}

} // verus!
