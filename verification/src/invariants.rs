//! What the operations of a circuit keep: level logic stays level logic,
//! and a settled circuit stays settled where the propagation of an
//! operation settles.

use vstd::prelude::*;
use crate::formulas::lemma_compile_run_frame;
use crate::circuit::{
    consumers, cut_inputs, cut_outputs, force_all, forced, isolated, lemma_drive_settles,
    limit, pulse_net, with_id, CircuitView, TruthPlan,
};
use crate::combinational::{lemma_force_all_frame, lemma_forced_frame};
use crate::table::bits_msb;
use crate::components::{DefView, GateView};
use crate::network::{
    enqueue_all, lemma_deliver_keeps_wiring, lemma_enqueue_all, lemma_expr_run_keeps_levels,
    lemma_run_keeps_cached, lemma_run_keeps_wiring, lemma_run_on_settled, lemma_run_settles,
    lemma_same_wiring_chain, lemma_unlink_keeps_wf, lemma_wiring_keeps_wf, level_driven, linked,
    net_settled, net_wf, same_levels_gate, same_wiring, same_wiring_gate, settles, targets,
    traverse, unlinked, values_cached, ComponentActor, Net,
};
use crate::types::{CompType, ID, NULL, PIN};

verus! {

/// The gates of `a` are gates of `b` with the same logic, each with an edge
/// detector in both nets or in neither.
pub open spec fn same_logic(a: Net, b: Net) -> bool {
    forall|x: ID|
        #![trigger b.contains_key(x)]
        b.contains_key(x) ==> a.contains_key(x) && a[x].eval == b[x].eval && (a[x].clock is Some
            <==> b[x].clock is Some)
}

/// Level logic stays level logic where the logic stays.
pub proof fn lemma_same_logic_level(a: Net, b: Net)
    requires
        same_logic(a, b),
        level_driven(a),
    ensures
        level_driven(b),
{
    assert forall|x: ID|
        #![trigger b.contains_key(x)]
        b.contains_key(x) && b[x].clock is None implies b[x].eval.is_level() by {
        assert(a.contains_key(x));
    }
}

/// The same logic can be chained.
pub proof fn lemma_same_logic_chain(a: Net, b: Net, c: Net)
    requires
        same_logic(a, b),
        same_logic(b, c),
    ensures
        same_logic(a, c),
{
    assert forall|x: ID| #![trigger c.contains_key(x)] c.contains_key(x) implies a.contains_key(x)
        && a[x].eval == c[x].eval && (a[x].clock is Some <==> c[x].clock is Some) by {
        assert(b.contains_key(x));
    }
}

/// Nets of one wiring have the same logic.
pub proof fn lemma_wiring_same_logic(a: Net, b: Net)
    requires
        same_wiring(a, b),
    ensures
        same_logic(a, b),
{
    assert forall|x: ID| #![trigger b.contains_key(x)] b.contains_key(x) implies a.contains_key(x)
        && a[x].eval == b[x].eval && (a[x].clock is Some <==> b[x].clock is Some) by {
        assert(a.dom().contains(x));
        assert(a.contains_key(x));
        assert(same_wiring_gate(a[x], b[x]));
    }
}

/// A traversal keeps the logic.
pub proof fn lemma_traverse_same_logic(net: Net, inits: Seq<ID>, actor: ComponentActor)
    ensures
        same_logic(net, traverse(net, inits, actor, limit())),
        same_wiring(net, traverse(net, inits, actor, limit())),
{
    lemma_run_keeps_wiring(net, enqueue_all(Seq::empty(), inits), actor, limit());
    lemma_wiring_same_logic(net, traverse(net, inits, actor, limit()));
}

/// Making and cutting a wire keeps the logic.
pub proof fn lemma_wire_same_logic(net: Net, r: ID, p: PIN, e: ID)
    requires
        net.contains_key(r),
        net.contains_key(e),
    ensures
        same_logic(net, linked(net, r, p, e)),
        same_logic(net, unlinked(net, r, p, e)),
{
}

/// Setting an output keeps the logic and the wiring.
pub proof fn lemma_forced_same_logic(net: Net, id: ID, val: bool)
    requires
        net.contains_key(id),
    ensures
        same_wiring(net, forced(net, id, val)),
        same_logic(net, forced(net, id, val)),
{
    let base = net.insert(id, GateView { state: val, ..net[id] });
    assert(base.dom() =~= net.dom());
    assert(same_wiring(net, base));
    lemma_deliver_keeps_wiring(base, net[id].receivers, val, Seq::empty());
    lemma_same_wiring_chain(net, base, forced(net, id, val));
    lemma_wiring_same_logic(net, forced(net, id, val));
}

/// Wiring two gates keeps level logic level.
pub proof fn lemma_connected_keeps_level(c: CircuitView, r: ID, p: PIN, e: ID)
    requires
        c.connect_fault(r, p, e) is None,
        c.level_driven(),
    ensures
        c.connected(r, p, e).level_driven(),
{
    let net1 = linked(c.gates, r, p, e);
    let mid = traverse(net1, seq![r], ComponentActor::UpdateState, limit());
    lemma_wire_same_logic(c.gates, r, p, e);
    lemma_traverse_same_logic(net1, seq![r], ComponentActor::UpdateState);
    lemma_traverse_same_logic(mid, seq![r], ComponentActor::SetExpressions);
    lemma_same_logic_chain(c.gates, net1, mid);
    lemma_same_logic_chain(c.gates, mid, c.connected(r, p, e).gates);
    lemma_same_logic_level(c.gates, c.connected(r, p, e).gates);
}

/// Cutting a wire keeps level logic level.
pub proof fn lemma_disconnected_keeps_level(c: CircuitView, r: ID, p: PIN, e: ID)
    requires
        c.disconnect_fault(r, p, e) is None,
        c.level_driven(),
    ensures
        c.disconnected(r, p, e).level_driven(),
{
    let net1 = unlinked(c.gates, r, p, e);
    let mid = traverse(net1, seq![r], ComponentActor::UpdateState, limit());
    lemma_wire_same_logic(c.gates, r, p, e);
    lemma_traverse_same_logic(net1, seq![r], ComponentActor::UpdateState);
    lemma_traverse_same_logic(mid, seq![r], ComponentActor::SetExpressions);
    lemma_same_logic_chain(c.gates, net1, mid);
    lemma_same_logic_chain(c.gates, mid, c.disconnected(r, p, e).gates);
    lemma_same_logic_level(c.gates, c.disconnected(r, p, e).gates);
}

/// Setting an output and pulsing the clock keep level logic level.
pub proof fn lemma_driven_keeps_level(c: CircuitView, id: ID, val: bool)
    requires
        c.gates.contains_key(id),
        c.level_driven(),
    ensures
        c.driven(id, val).level_driven(),
        c.driven(id, val).gates.dom() == c.gates.dom(),
        c.driven(id, !val).driven(id, val).level_driven(),
{
    let f = forced(c.gates, id, val);
    lemma_forced_same_logic(c.gates, id, val);
    lemma_traverse_same_logic(f, targets(c.gates[id].receivers), ComponentActor::UpdateState);
    lemma_same_logic_chain(c.gates, f, c.driven(id, val).gates);
    lemma_same_logic_level(c.gates, c.driven(id, val).gates);
    let g = forced(c.gates, id, !val);
    lemma_forced_same_logic(c.gates, id, !val);
    lemma_traverse_same_logic(g, targets(c.gates[id].receivers), ComponentActor::UpdateState);
    lemma_same_logic_chain(c.gates, g, c.driven(id, !val).gates);
    lemma_same_logic_level(c.gates, c.driven(id, !val).gates);
    let up = c.driven(id, !val);
    assert(up.gates.contains_key(id));
    let h = forced(up.gates, id, val);
    lemma_forced_same_logic(up.gates, id, val);
    lemma_traverse_same_logic(h, targets(up.gates[id].receivers), ComponentActor::UpdateState);
    lemma_same_logic_chain(up.gates, h, up.driven(id, val).gates);
    lemma_same_logic_level(up.gates, up.driven(id, val).gates);
}

/// The passes over the whole circuit and a new label keep level logic
/// level.
pub proof fn lemma_passes_keep_level(c: CircuitView, id: ID, lab: Seq<char>)
    requires
        c.level_driven(),
    ensures
        c.compiled().level_driven(),
        c.refreshed().level_driven(),
        c.powered().level_driven(),
        c.gates.contains_key(id) ==> c.relabelled(id, lab).level_driven(),
{
    lemma_compile_run_frame(
        c.gates,
        enqueue_all(Seq::empty(), c.drivers()),
        Set::empty(),
        limit(),
    );
    lemma_wiring_same_logic(c.gates, c.compiled().gates);
    lemma_same_logic_level(c.gates, c.compiled().gates);
    lemma_traverse_same_logic(c.gates, c.drivers(), ComponentActor::UpdateState);
    lemma_same_logic_level(c.gates, c.refreshed().gates);
    lemma_traverse_same_logic(c.compiled().gates, c.drivers(), ComponentActor::PowerOn);
    lemma_same_logic_level(c.compiled().gates, c.powered().gates);
    if c.gates.contains_key(id) {
        let named = c.gates.insert(id, GateView { label: lab, ..c.gates[id] });
        assert(same_logic(c.gates, named));
        lemma_traverse_same_logic(named, seq![id], ComponentActor::SetExpressions);
        lemma_same_logic_chain(c.gates, named, c.relabelled(id, lab).gates);
        lemma_same_logic_level(c.gates, c.relabelled(id, lab).gates);
    }
}

/// A formula pass and a new label leave a settled circuit settled.
pub proof fn lemma_formulas_keep_settled(c: CircuitView, id: ID, lab: Seq<char>)
    requires
        c.settled(),
    ensures
        c.compiled().settled(),
        c.gates.contains_key(id) ==> c.relabelled(id, lab).settled(),
{
    lemma_compile_run_frame(
        c.gates,
        enqueue_all(Seq::empty(), c.drivers()),
        Set::empty(),
        limit(),
    );
    if c.gates.contains_key(id) {
        let named = c.gates.insert(id, GateView { label: lab, ..c.gates[id] });
        assert(net_settled(named)) by {
            assert forall|x: ID| #![trigger named.contains_key(x)] named.contains_key(x) implies named[x].settled() by {
                assert(c.gates.contains_key(x));
            }
        }
        lemma_expr_run_keeps_levels(
            named,
            enqueue_all(Seq::empty(), seq![id]),
            ComponentActor::SetExpressions,
            limit(),
        );
    }
}

/// A refresh changes nothing in a settled circuit. Powering on leaves a
/// settled circuit with level logic settled where its value pass
/// settles.
pub proof fn lemma_passes_keep_settled(c: CircuitView)
    requires
        c.wf(),
        c.settled(),
    ensures
        c.refreshed() == c,
        c.level_driven() && settles(
            c.compiled().gates,
            c.drivers(),
            ComponentActor::PowerOn,
            limit(),
        ) ==> c.powered().settled(),
{
    let q = enqueue_all(Seq::empty(), c.drivers());
    assert forall|i: int| 0 <= i < q.len() && c.gates.contains_key(#[trigger] q[i]) implies c.gates[q[i]].settled() by {}
    lemma_run_on_settled(c.gates, q, limit());
    if c.level_driven() && settles(
        c.compiled().gates,
        c.drivers(),
        ComponentActor::PowerOn,
        limit(),
    ) {
        let mid = c.compiled().gates;
        lemma_formulas_keep_settled(c, 0, Seq::empty());
        lemma_passes_keep_level(c, 0, Seq::empty());
        lemma_compile_run_frame(
            c.gates,
            enqueue_all(Seq::empty(), c.drivers()),
            Set::empty(),
            limit(),
        );
        lemma_wiring_same_logic(c.gates, c.compiled().gates);
        lemma_wiring_keeps_wf(c.gates, mid);
        assert forall|x: ID|
            #![trigger mid.contains_key(x)]
            mid.contains_key(x) && !mid[x].settled() implies q.contains(x) by {}
        lemma_run_settles(mid, q, ComponentActor::PowerOn, limit(), Set::full());
        let last = c.powered().gates;
        assert forall|x: ID| #![trigger last.contains_key(x)] last.contains_key(x) implies last[x].settled() by {
            assert(Set::<ID>::full().contains(x));
        }
    }
}

/// A new gate keeps level logic level and a settled circuit settled, where
/// the new gate is settled and has level logic or an edge detector.
pub proof fn lemma_insert_keeps(c: CircuitView, g: GateView, id: ID)
    requires
        g.settled(),
        g.clock is Some || g.eval.is_level(),
    ensures
        c.level_driven() ==> level_driven(c.gates.insert(id, g)),
        c.settled() ==> net_settled(c.gates.insert(id, g)),
{
    let after = c.gates.insert(id, g);
    if c.level_driven() {
        assert forall|x: ID|
            #![trigger after.contains_key(x)]
            after.contains_key(x) && after[x].clock is None implies after[x].eval.is_level() by {
            if x != id {
                assert(c.gates.contains_key(x));
            }
        }
    }
    if c.settled() {
        assert forall|x: ID| #![trigger after.contains_key(x)] after.contains_key(x) implies after[x].settled() by {
            if x != id {
                assert(c.gates.contains_key(x));
            }
        }
    }
}

/// A new gate of a kind with level logic, or of a sequential kind, and a
/// new input keep level logic level and a settled circuit settled.
pub proof fn lemma_added_keeps(c: CircuitView, d: DefView, lab: Seq<char>, init: bool, id: ID)
    ensures
        (d.comp_type == CompType::Sequential || d.eval.is_level()) && c.level_driven()
            ==> level_driven(c.gates.insert(id, with_id(GateView::fresh(d), id))),
        (d.comp_type == CompType::Sequential || d.eval.is_level()) && c.settled() ==> net_settled(
            c.gates.insert(id, with_id(GateView::fresh(d), id)),
        ),
        c.level_driven() ==> level_driven(
            c.gates.insert(id, with_id(GateView::input(lab, init), id)),
        ),
        c.settled() ==> net_settled(c.gates.insert(id, with_id(GateView::input(lab, init), id))),
{
    if d.comp_type == CompType::Sequential || d.eval.is_level() {
        let g = with_id(GateView::fresh(d), id);
        if d.comp_type != CompType::Sequential {
            d.eval.lemma_level_idempotent(g.pin_values, false);
        }
        lemma_insert_keeps(c, g, id);
    }
    lemma_insert_keeps(c, with_id(GateView::input(lab, init), id), id);
}

/// Setting the output of a gate leaves a settled circuit with level logic
/// settled, where the propagation settles and the component is settled with its
/// new output. A pulse of an input that holds its output does so where both
/// of its propagations settle.
pub proof fn lemma_driven_keeps_settled(c: CircuitView, id: ID, val: bool)
    requires
        c.wf(),
        c.settled(),
        c.level_driven(),
        c.gates.contains_key(id),
    ensures
        (GateView { state: val, ..c.gates[id] }).settled() && c.drive_settles(id, val)
            ==> c.driven(id, val).settled(),
        c.gates[id].clock is None && c.gates[id].eval == crate::types::ReducerView::Hold
            && c.pulse_settles(id) ==> c.pulsed(id).settled(),
{
    if (GateView { state: val, ..c.gates[id] }).settled() && c.drive_settles(id, val) {
        lemma_drive_settles(c.gates, id, val);
    }
    if c.gates[id].clock is None && c.gates[id].eval == crate::types::ReducerView::Hold
        && c.pulse_settles(id) {
        let cur = c.gates[id].state;
        lemma_drive_settles(c.gates, id, !cur);
        let up = c.driven(id, !cur);
        lemma_driven_keeps_level(c, id, !cur);
        lemma_forced_same_logic(c.gates, id, !cur);
        let f = forced(c.gates, id, !cur);
        lemma_wiring_keeps_wf(c.gates, f);
        lemma_traverse_same_logic(f, targets(c.gates[id].receivers), ComponentActor::UpdateState);
        lemma_wiring_keeps_wf(f, up.gates);
        assert(up.gates.contains_key(id));
        assert(f.contains_key(id));
        assert(same_wiring_gate(c.gates[id], f[id]));
        assert(same_wiring_gate(f[id], up.gates[id]));
        lemma_drive_settles(up.gates, id, cur);
    }
}

/// Cutting the wires into a gate changes, among the other gates, only
/// which wires they list.
pub proof fn lemma_cut_inputs_frame(net: Net, id: ID, k: nat)
    requires
        net_wf(net),
        net.contains_key(id),
        k <= net[id].pin_sources.len(),
    ensures
        net_wf(cut_inputs(net, id, k)),
        cut_inputs(net, id, k).dom() == net.dom(),
        same_logic(net, cut_inputs(net, id, k)),
        cut_inputs(net, id, k)[id].receivers == net[id].receivers,
        cut_inputs(net, id, k)[id].pin_sources.len() == net[id].pin_sources.len(),
        forall|j: int| 0 <= j < k ==> cut_inputs(net, id, k)[id].pin_sources[j] == NULL,
        forall|j: int|
            k <= j < net[id].pin_sources.len() ==> cut_inputs(net, id, k)[id].pin_sources[j]
                == net[id].pin_sources[j],
        forall|x: ID|
            #![trigger net.contains_key(x)]
            net.contains_key(x) && x != id ==> same_levels_gate(net[x], cut_inputs(net, id, k)[x])
                && net[x].pin_sources == cut_inputs(net, id, k)[x].pin_sources,
    decreases k,
{
    if k > 0 {
        lemma_cut_inputs_frame(net, id, (k - 1) as nat);
        let prev = cut_inputs(net, id, (k - 1) as nat);
        let last = cut_inputs(net, id, k);
        let src = prev[id].pin_sources[k - 1];
        assert(prev.contains_key(id));
        assert(prev[id].wf());
        if src != NULL {
            assert(crate::network::slot_has_edge(prev, id, k - 1));
            lemma_unlink_keeps_wf(prev, id, (k - 1) as PIN, src);
            lemma_wire_same_logic(prev, id, (k - 1) as PIN, src);
            lemma_same_logic_chain(net, prev, last);
            assert(last[id] == prev[id].with_pin_cleared((k - 1) as PIN));
            assert forall|x: ID|
                #![trigger net.contains_key(x)]
                net.contains_key(x) && x != id implies same_levels_gate(net[x], last[x])
                && net[x].pin_sources == last[x].pin_sources by {
                assert(prev.contains_key(x));
                if x != src {
                    assert(last[x] == prev[x]);
                }
            }
        } else {
            assert(last == prev);
        }
    } else {
        assert(same_logic(net, net));
    }
}

/// Cutting the first wires out of a gate changes, among the other gates,
/// only the pins that the wires led to.
pub proof fn lemma_cut_outputs_frame(net: Net, id: ID, full: Seq<(ID, PIN)>, i: nat)
    requires
        net_wf(net),
        net.contains_key(id),
        net[id].receivers == full,
        i <= full.len(),
    ensures
        net_wf(cut_outputs(net, id, full.take(i as int))),
        cut_outputs(net, id, full.take(i as int)).dom() == net.dom(),
        same_logic(net, cut_outputs(net, id, full.take(i as int))),
        cut_outputs(net, id, full.take(i as int))[id].receivers == full.skip(i as int),
        cut_outputs(net, id, full.take(i as int))[id].pin_sources == net[id].pin_sources,
        forall|x: ID|
            #![trigger net.contains_key(x)]
            net.contains_key(x) && x != id && !targets(full).contains(x) ==> same_levels_gate(
                net[x],
                cut_outputs(net, id, full.take(i as int))[x],
            ),
    decreases i,
{
    let part = full.take(i as int);
    let last = cut_outputs(net, id, part);
    if i > 0 {
        let head = full.take(i - 1);
        assert(part.drop_last() =~= head);
        lemma_cut_outputs_frame(net, id, full, (i - 1) as nat);
        let prev = cut_outputs(net, id, head);
        let edge = full[i - 1];
        assert(part.last() == edge);
        let left = full.skip(i - 1);
        assert(left[0] == edge);
        assert(prev[id].receivers.contains(edge));
        lemma_unlink_keeps_wf(prev, edge.0, edge.1, id);
        lemma_wire_same_logic(prev, edge.0, edge.1, id);
        lemma_same_logic_chain(net, prev, last);
        assert(prev[id].wf());
        left.index_of_first_ensures(edge);
        assert(left.remove_value(edge) =~= full.skip(i as int));
        assert(last[id].receivers == full.skip(i as int));
        assert forall|x: ID|
            #![trigger net.contains_key(x)]
            net.contains_key(x) && x != id && !targets(full).contains(x) implies same_levels_gate(
            net[x],
            last[x],
        ) by {
            assert(prev.contains_key(x));
            assert(x != edge.0) by {
                if x == edge.0 {
                    assert(targets(full)[i - 1] == x);
                }
            }
            assert(last[x] == prev[x]);
        }
    } else {
        assert(part =~= Seq::<(ID, PIN)>::empty());
        assert(full.skip(0) =~= full);
        assert(same_logic(net, net));
    }
}

/// Taking a gate out keeps level logic level, and leaves a settled circuit
/// with level logic settled where the propagation from its former consumers
/// settles.
pub proof fn lemma_removed_keeps(c: CircuitView, id: ID)
    requires
        c.wf(),
        c.gates.contains_key(id),
        c.level_driven(),
    ensures
        c.removed(id).level_driven(),
        c.settled() && settles(
            isolated(c.gates, id),
            targets(c.gates[id].receivers),
            ComponentActor::UpdateState,
            limit(),
        ) ==> c.removed(id).settled(),
{
    let net = c.gates;
    let full = net[id].receivers;
    assert(net[id].wf());
    let n = net[id].num_pins();
    lemma_cut_inputs_frame(net, id, n);
    let mid = cut_inputs(net, id, n);
    lemma_cut_outputs_frame(mid, id, full, full.len());
    assert(full.take(full.len() as int) =~= full);
    let cut = cut_outputs(mid, id, full);
    lemma_same_logic_chain(net, mid, cut);
    crate::network::lemma_remove_isolated_keeps_wf(cut, id);
    let alone = isolated(net, id);
    assert(alone == cut.remove(id));
    assert(same_logic(cut, alone));
    lemma_same_logic_chain(net, cut, alone);
    lemma_same_logic_level(net, alone);
    let seeds = targets(full);
    lemma_traverse_same_logic(alone, seeds, ComponentActor::UpdateState);
    lemma_same_logic_level(alone, c.removed(id).gates);
    if c.settled() && settles(alone, seeds, ComponentActor::UpdateState, limit()) {
        let q = enqueue_all(Seq::empty(), seeds);
        lemma_enqueue_all(Seq::empty(), seeds);
        assert forall|x: ID|
            #![trigger alone.contains_key(x)]
            alone.contains_key(x) && !alone[x].settled() implies q.contains(x) by {
            assert(net.contains_key(x));
            assert(mid.contains_key(x));
            if !seeds.contains(x) {
                assert(same_levels_gate(net[x], mid[x]));
                assert(same_levels_gate(mid[x], cut[x]));
                assert(net[x].settled());
            }
        }
        lemma_run_settles(alone, q, ComponentActor::UpdateState, limit(), Set::full());
        let last = c.removed(id).gates;
        assert forall|x: ID| #![trigger last.contains_key(x)] last.contains_key(x) implies last[x].settled() by {
            assert(Set::<ID>::full().contains(x));
        }
    }
}

/// Playing rows of the truth table keeps the wiring, and with it the
/// invariant of the circuit and level logic.
pub proof fn lemma_rows_keep_wiring(plan: TruthPlan, net: Net, n: nat)
    requires
        net_wf(net),
        values_cached(net),
        forall|i: int| 0 <= i < plan.drivers.len() ==> net.contains_key(#[trigger] plan.drivers[i]),
    ensures
        same_wiring(net, plan.rows(net, n).1),
        net_wf(plan.rows(net, n).1),
        values_cached(plan.rows(net, n).1),
        level_driven(net) ==> level_driven(plan.rows(net, n).1),
    decreases n,
{
    if n == 0 {
        assert(same_wiring(net, net));
    } else {
        let k = (n - 1) as nat;
        lemma_rows_keep_wiring(plan, net, k);
        let prev = plan.rows(net, k).1;
        let ids = plan.drivers;
        let bits = bits_msb(k, ids.len());
        assert forall|i: int| 0 <= i < ids.len() implies prev.contains_key(#[trigger] ids[i]) by {
            assert(net.contains_key(ids[i]));
        }
        lemma_force_all_frame(prev, ids, bits);
        let net1 = force_all(prev, ids, bits);
        let seeds = consumers(prev, ids);
        let q = enqueue_all(Seq::empty(), seeds);
        lemma_run_keeps_wiring(net1, q, ComponentActor::UpdateState, limit());
        lemma_run_keeps_cached(net1, q, ComponentActor::UpdateState, limit());
        let net2 = traverse(net1, seeds, ComponentActor::UpdateState, limit());
        lemma_same_wiring_chain(prev, net1, net2);
        lemma_wiring_keeps_wf(prev, net2);
        let last = plan.row_net(prev, k);
        match plan.clk {
            Some(c) => {
                if net2.contains_key(c) {
                    let cur = net2[c].state;
                    lemma_forced_frame(net2, c, !cur);
                    let f = forced(net2, c, !cur);
                    let qf = enqueue_all(Seq::empty(), targets(net2[c].receivers));
                    lemma_run_keeps_wiring(f, qf, ComponentActor::UpdateState, limit());
                    lemma_run_keeps_cached(f, qf, ComponentActor::UpdateState, limit());
                    let up = traverse(
                        f,
                        targets(net2[c].receivers),
                        ComponentActor::UpdateState,
                        limit(),
                    );
                    lemma_same_wiring_chain(net2, f, up);
                    lemma_wiring_keeps_wf(net2, up);
                    assert(up.contains_key(c));
                    lemma_forced_frame(up, c, cur);
                    let g = forced(up, c, cur);
                    let qg = enqueue_all(Seq::empty(), targets(up[c].receivers));
                    lemma_run_keeps_wiring(g, qg, ComponentActor::UpdateState, limit());
                    lemma_run_keeps_cached(g, qg, ComponentActor::UpdateState, limit());
                    assert(last == pulse_net(net2, c));
                    lemma_same_wiring_chain(up, g, last);
                    lemma_same_wiring_chain(net2, up, last);
                    lemma_wiring_keeps_wf(net2, last);
                }
            },
            None => {},
        }
        lemma_same_wiring_chain(prev, net2, last);
        lemma_same_wiring_chain(net, prev, last);
        lemma_wiring_keeps_wf(net, last);
    }
}

/// Building the truth table keeps level logic level.
pub proof fn lemma_truth_table_keeps_level(c: CircuitView, n: nat)
    requires
        c.wf(),
        c.level_driven(),
    ensures
        level_driven(c.truth_plan().rows(c.gates, n).1),
{
    crate::circuit::lemma_table_gates(c);
    lemma_rows_keep_wiring(c.truth_plan(), c.gates, n);
}

} // verus!
