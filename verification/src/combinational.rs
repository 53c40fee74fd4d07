//! Circuits without memory: where no wire leads back and no gate keeps a
//! value of its own, the settled outputs are a function of the inputs.

use vstd::prelude::*;
use crate::circuit::{
    consumers, force_all, forced, lemma_drive_settles, lemma_drivers_exist,
    lemma_ordered_by_agree, lemma_ordered_by_same, lemma_table_gates, limit, pulse_net, states_of,
    CircuitView, TruthPlan,
};
use crate::theorems::{lemma_drivers_characterised, lemma_drivers_of_same_wiring};
use crate::table::bits_msb;
use crate::components::GateView;
use crate::network::{
    act, deliver, lemma_act_keeps_wiring, lemma_deliver_keeps_wiring, lemma_deliver_misses,
    lemma_deliver_pins, lemma_restate_keeps_cached, lemma_same_wiring_chain,
    lemma_enqueue_all, lemma_run_keeps_cached, lemma_run_keeps_wiring, lemma_run_settles,
    lemma_wiring_keeps_wf, level_driven, net_settled, net_wf, pin_value, run, same_wiring,
    same_wiring_gate, settles, slot_has_edge, source_value, targets, traverse, values_cached,
    enqueue_all, ComponentActor, Net,
};
use crate::types::{ReducerView, ID, NULL, PIN};

verus! {

/// The logic does not read the current output.
pub open spec fn is_stateless(r: ReducerView) -> bool {
    forall|pins: Seq<bool>, q1: bool, q2: bool|
        #![trigger r.apply(pins, q1), r.apply(pins, q2)]
        r.apply(pins, q1) == r.apply(pins, q2)
}

/// Every wire leads from a gate of lower rank to a gate of higher rank, so
/// that no way along the wires leads back to where it began.
pub open spec fn ranked(net: Net, rank: Map<ID, nat>) -> bool {
    forall|r: ID, p: PIN|
        net.contains_key(r) && p < net[r].pin_sources.len() && #[trigger] net[r].pin_sources[p as int]
            != NULL ==> rank[net[r].pin_sources[p as int]] < rank[r]
}

/// The gates of `free` keep whatever output they are given, and every
/// other gate has no edge detector, has logic that does not read its own
/// output, and is settled.
pub open spec fn memoryless(net: Net, free: Set<ID>) -> bool {
    forall|x: ID|
        #![trigger net.contains_key(x)]
        net.contains_key(x) ==> net[x].clock is None && if free.contains(x) {
            net[x].eval == ReducerView::Hold
        } else {
            is_stateless(net[x].eval) && net[x].settled()
        }
}

/// The gates of `free` have the same outputs in both nets.
pub open spec fn agree_on(a: Net, b: Net, free: Set<ID>) -> bool {
    forall|x: ID|
        #![trigger a.contains_key(x)]
        a.contains_key(x) && free.contains(x) ==> a[x].state == b[x].state
}

/// In two settled nets of one wiring without memory, a gate has the same
/// output in both where the free gates have.
pub proof fn lemma_settled_unique(a: Net, b: Net, free: Set<ID>, rank: Map<ID, nat>, id: ID)
    requires
        net_wf(a),
        same_wiring(a, b),
        values_cached(a),
        values_cached(b),
        memoryless(a, free),
        memoryless(b, free),
        agree_on(a, b, free),
        ranked(a, rank),
        a.contains_key(id),
    ensures
        a[id].state == b[id].state,
    decreases rank[id],
{
    lemma_wiring_keeps_wf(a, b);
    assert(b.contains_key(id));
    assert(same_wiring_gate(a[id], b[id]));
    if !free.contains(id) {
        let ga = a[id];
        let gb = b[id];
        assert(ga.wf() && gb.wf());
        assert forall|k: int| 0 <= k < ga.pin_values.len() implies ga.pin_values[k]
            == gb.pin_values[k] by {
            let p = k as PIN;
            assert(pin_value(a, id, p) == source_value(a, id, p));
            assert(pin_value(b, id, p) == source_value(b, id, p));
            let src = ga.pin_sources[p as int];
            if src != NULL {
                assert(slot_has_edge(a, id, k));
                lemma_settled_unique(a, b, free, rank, src);
            }
        }
        assert(ga.pin_values =~= gb.pin_values);
        assert(ga.settled() && gb.settled());
        assert(ga.eval.apply(ga.pin_values, ga.state) == ga.eval.apply(ga.pin_values, gb.state));
    }
}

/// Logic that does not read the current output is level logic.
pub proof fn lemma_stateless_is_level(r: ReducerView)
    requires
        is_stateless(r),
    ensures
        r.is_level(),
{
    match r {
        ReducerView::JK => {
            let pins = seq![false, true, true];
            assert(r.apply(pins, false) != r.apply(pins, true));
        },
        ReducerView::Lookup(t) => {
            assert forall|pins: Seq<bool>, q: bool|
                r.apply(pins, #[trigger] r.apply(pins, q)) == r.apply(pins, q) by {
                let q1 = r.apply(pins, q);
                assert(r.apply(pins, q1) == r.apply(pins, q));
            }
        },
        _ => {},
    }
}

/// The two gates have the same formula and the same formulas on their
/// pins.
pub open spec fn same_texts(a: Net, b: Net) -> bool {
    &&& a.dom() == b.dom()
    &&& forall|x: ID|
        #![trigger a.contains_key(x)]
        a.contains_key(x) ==> a[x].state_expr == b[x].state_expr && a[x].pin_exprs == b[x].pin_exprs
}

/// Writing values along forward edges changes no formula.
pub proof fn lemma_deliver_keeps_texts(net: Net, recvs: Seq<(ID, PIN)>, v: bool)
    ensures
        same_texts(net, deliver(net, recvs, v)),
    decreases recvs.len(),
{
    if recvs.len() > 0 {
        lemma_deliver_keeps_texts(net, recvs.drop_last(), v);
        let prev = deliver(net, recvs.drop_last(), v);
        let next = deliver(net, recvs, v);
        assert(next.dom() =~= prev.dom());
        assert forall|x: ID| #![trigger net.contains_key(x)] net.contains_key(x) implies net[x].state_expr
            == next[x].state_expr && net[x].pin_exprs == next[x].pin_exprs by {
            assert(prev.contains_key(x));
        }
    }
}

/// A value visit changes no formula, and leaves the output of every gate
/// that holds its output as it is.
pub proof fn lemma_value_act_frame(net: Net, q: Seq<ID>, id: ID, actor: ComponentActor)
    requires
        actor.on_values(),
    ensures
        same_texts(net, act(net, q, id, actor).0),
        forall|x: ID|
            #![trigger net.contains_key(x)]
            net.contains_key(x) && net[x].clock is None && net[x].eval == ReducerView::Hold
                ==> act(net, q, id, actor).0[x].state == net[x].state,
{
    let next = act(net, q, id, actor).0;
    if net.contains_key(id) {
        let g = net[id];
        let g2 = g.evaluated();
        let base = net.insert(id, g2);
        assert(base.dom() =~= net.dom());
        lemma_deliver_keeps_texts(base, g.receivers, g2.state);
        lemma_deliver_pins(base, g.receivers, g2.state);
        assert forall|x: ID| #![trigger net.contains_key(x)] net.contains_key(x) implies net[x].state_expr
            == next[x].state_expr && net[x].pin_exprs == next[x].pin_exprs by {
            assert(base.contains_key(x));
        }
        assert forall|x: ID|
            #![trigger net.contains_key(x)]
            net.contains_key(x) && net[x].clock is None && net[x].eval
                == ReducerView::Hold implies next[x].state == net[x].state by {
            assert(base.contains_key(x));
            assert(base[x].state == net[x].state);
            assert(deliver(base, g.receivers, g2.state)[x].state == base[x].state);
        }
    }
}

/// A value traversal changes no formula, and leaves the output of every
/// gate that holds its output as it is.
pub proof fn lemma_value_run_frame(net: Net, q: Seq<ID>, actor: ComponentActor, fuel: nat)
    requires
        actor.on_values(),
    ensures
        same_texts(net, run(net, q, actor, fuel).0),
        forall|x: ID|
            #![trigger net.contains_key(x)]
            net.contains_key(x) && net[x].clock is None && net[x].eval == ReducerView::Hold
                ==> run(net, q, actor, fuel).0[x].state == net[x].state,
    decreases fuel,
{
    let last = run(net, q, actor, fuel).0;
    if q.len() == 0 || fuel == 0 {
    } else {
        let next = act(net, q.skip(1), q[0], actor);
        lemma_value_act_frame(net, q.skip(1), q[0], actor);
        lemma_act_keeps_wiring(net, q.skip(1), q[0], actor);
        lemma_value_run_frame(next.0, next.1, actor, (fuel - 1) as nat);
        assert forall|x: ID| #![trigger net.contains_key(x)] net.contains_key(x) implies net[x].state_expr
            == last[x].state_expr && net[x].pin_exprs == last[x].pin_exprs by {
            assert(next.0.contains_key(x));
        }
        assert forall|x: ID|
            #![trigger net.contains_key(x)]
            net.contains_key(x) && net[x].clock is None && net[x].eval
                == ReducerView::Hold implies last[x].state == net[x].state by {
            assert(next.0.contains_key(x));
            assert(same_wiring_gate(net[x], next.0[x]));
        }
    }
}

/// Setting the output of one gate and writing it along its forward edges
/// keeps the wiring, the formulas and the outputs of all other gates, and
/// changes pin values of its consumers only.
pub proof fn lemma_forced_frame(net: Net, id: ID, val: bool)
    requires
        net_wf(net),
        values_cached(net),
        net.contains_key(id),
    ensures
        same_wiring(net, forced(net, id, val)),
        net_wf(forced(net, id, val)),
        values_cached(forced(net, id, val)),
        same_texts(net, forced(net, id, val)),
        forced(net, id, val)[id].state == val,
        forall|x: ID|
            #![trigger net.contains_key(x)]
            net.contains_key(x) && x != id ==> forced(net, id, val)[x].state == net[x].state,
        forall|x: ID|
            #![trigger net.contains_key(x)]
            net.contains_key(x) && !targets(net[id].receivers).contains(x) ==> forced(
                net,
                id,
                val,
            )[x].pin_values == net[x].pin_values && forced(net, id, val)[x].clock == net[x].clock,
{
    let g2 = GateView { state: val, ..net[id] };
    let base = net.insert(id, g2);
    let last = forced(net, id, val);
    assert(base.dom() =~= net.dom());
    assert(same_wiring(net, base));
    lemma_deliver_keeps_wiring(base, net[id].receivers, val, Seq::empty());
    lemma_same_wiring_chain(net, base, last);
    lemma_wiring_keeps_wf(net, last);
    lemma_restate_keeps_cached(net, id, g2, val);
    lemma_deliver_keeps_texts(base, net[id].receivers, val);
    lemma_deliver_pins(base, net[id].receivers, val);
    assert forall|x: ID| #![trigger net.contains_key(x)] net.contains_key(x) implies net[x].state_expr
        == last[x].state_expr && net[x].pin_exprs == last[x].pin_exprs by {
        assert(base.contains_key(x));
    }
    assert(last[id].state == val) by {
        assert(base.contains_key(id));
        assert(last[id].state == base[id].state);
    }
    assert forall|x: ID|
        #![trigger net.contains_key(x)]
        net.contains_key(x) && x != id implies last[x].state == net[x].state by {
        assert(base.contains_key(x));
        assert(last[x].state == base[x].state);
    }
    assert forall|x: ID|
        #![trigger net.contains_key(x)]
        net.contains_key(x) && !targets(net[id].receivers).contains(x) implies last[x].pin_values
        == net[x].pin_values && last[x].clock == net[x].clock by {
        lemma_deliver_misses(base, net[id].receivers, val, x);
    }
}

/// Formulas that agree can be chained.
pub proof fn lemma_same_texts_chain(a: Net, b: Net, c: Net)
    requires
        same_texts(a, b),
        same_texts(b, c),
    ensures
        same_texts(a, c),
{
    assert forall|x: ID| #![trigger a.contains_key(x)] a.contains_key(x) implies a[x].state_expr
        == c[x].state_expr && a[x].pin_exprs == c[x].pin_exprs by {
        assert(b.contains_key(x));
    }
}

/// Setting the outputs of a list of gates keeps the wiring and the
/// formulas, changes the outputs of the listed gates only, and changes pin
/// values of their consumers only.
pub proof fn lemma_force_all_frame(net: Net, ids: Seq<ID>, bits: Seq<bool>)
    requires
        net_wf(net),
        values_cached(net),
        forall|i: int| 0 <= i < ids.len() ==> net.contains_key(#[trigger] ids[i]),
    ensures
        same_wiring(net, force_all(net, ids, bits)),
        net_wf(force_all(net, ids, bits)),
        values_cached(force_all(net, ids, bits)),
        same_texts(net, force_all(net, ids, bits)),
        forall|x: ID|
            #![trigger net.contains_key(x)]
            net.contains_key(x) && !ids.contains(x) ==> force_all(net, ids, bits)[x].state
                == net[x].state,
        forall|x: ID|
            #![trigger net.contains_key(x)]
            net.contains_key(x) && !consumers(net, ids).contains(x) ==> force_all(
                net,
                ids,
                bits,
            )[x].pin_values == net[x].pin_values && force_all(net, ids, bits)[x].clock
                == net[x].clock,
    decreases ids.len(),
{
    let last = force_all(net, ids, bits);
    if ids.len() == 0 {
    } else {
        let head = ids.drop_last();
        let id = ids.last();
        let bit = bits[ids.len() - 1];
        assert forall|i: int| 0 <= i < head.len() implies net.contains_key(#[trigger] head[i]) by {
            assert(head[i] == ids[i]);
        }
        lemma_force_all_frame(net, head, bits);
        let prev = force_all(net, head, bits);
        assert(net.contains_key(ids[ids.len() - 1]));
        assert(prev.contains_key(id));
        lemma_forced_frame(prev, id, bit);
        lemma_same_wiring_chain(net, prev, last);
        lemma_same_texts_chain(net, prev, last);
        assert(same_wiring_gate(net[id], prev[id]));
        let all = consumers(net, ids);
        let before = consumers(net, head);
        let here = targets(net[id].receivers);
        assert(all == before + here);
        assert forall|x: ID|
            #![trigger net.contains_key(x)]
            net.contains_key(x) && !ids.contains(x) implies last[x].state == net[x].state by {
            assert(prev.contains_key(x));
            assert(x != id) by {
                if x == id {
                    assert(ids[ids.len() - 1] == x);
                }
            }
            assert(!head.contains(x)) by {
                if head.contains(x) {
                    let i = choose|i: int| 0 <= i < head.len() && head[i] == x;
                    assert(ids[i] == x);
                }
            }
        }
        assert forall|x: ID|
            #![trigger net.contains_key(x)]
            net.contains_key(x) && !all.contains(x) implies last[x].pin_values
            == net[x].pin_values && last[x].clock == net[x].clock by {
            assert(prev.contains_key(x));
            assert(!before.contains(x)) by {
                if before.contains(x) {
                    let i = choose|i: int| 0 <= i < before.len() && before[i] == x;
                    assert(all[i] == x);
                }
            }
            assert(!here.contains(x)) by {
                if here.contains(x) {
                    let i = choose|i: int| 0 <= i < here.len() && here[i] == x;
                    assert(all[before.len() + i] == x);
                }
            }
        }
    }
}

/// Setting the outputs of a list of gates gives each listed gate the same
/// output, whatever the net was before.
pub proof fn lemma_force_all_agree(a: Net, b: Net, ids: Seq<ID>, bits: Seq<bool>)
    requires
        net_wf(a),
        net_wf(b),
        values_cached(a),
        values_cached(b),
        a.dom() == b.dom(),
        forall|i: int| 0 <= i < ids.len() ==> a.contains_key(#[trigger] ids[i]),
    ensures
        forall|i: int|
            0 <= i < ids.len() ==> force_all(a, ids, bits)[#[trigger] ids[i]].state == force_all(
                b,
                ids,
                bits,
            )[ids[i]].state,
    decreases ids.len(),
{
    if ids.len() > 0 {
        let head = ids.drop_last();
        let id = ids.last();
        let bit = bits[ids.len() - 1];
        assert forall|i: int| 0 <= i < head.len() implies a.contains_key(#[trigger] head[i]) by {
            assert(head[i] == ids[i]);
        }
        lemma_force_all_agree(a, b, head, bits);
        lemma_force_all_frame(a, head, bits);
        lemma_force_all_frame(b, head, bits);
        let pa = force_all(a, head, bits);
        let pb = force_all(b, head, bits);
        assert(a.contains_key(ids[ids.len() - 1]));
        assert(pa.contains_key(id) && pb.contains_key(id));
        lemma_forced_frame(pa, id, bit);
        lemma_forced_frame(pb, id, bit);
        assert forall|i: int| 0 <= i < ids.len() implies force_all(a, ids, bits)[#[trigger] ids[i]].state
            == force_all(b, ids, bits)[ids[i]].state by {
            let x = ids[i];
            assert(pa.contains_key(x) && pb.contains_key(x));
            if x != id {
                assert(head[i] == x);
            }
        }
    }
}

/// The net has the wiring and the formulas of `base`, is well formed, keeps
/// its pins at the outputs of their sources, and has no memory outside
/// `free`.
pub open spec fn steady(net: Net, base: Net, free: Set<ID>) -> bool {
    &&& net_wf(net)
    &&& values_cached(net)
    &&& same_wiring(base, net)
    &&& same_texts(base, net)
    &&& memoryless(net, free)
}

/// A net without memory is settled and has level logic throughout.
pub proof fn lemma_memoryless_settled(net: Net, free: Set<ID>)
    requires
        memoryless(net, free),
    ensures
        net_settled(net),
        level_driven(net),
{
    assert forall|x: ID| #![trigger net.contains_key(x)] net.contains_key(x) implies net[x].settled() by {}
    assert forall|x: ID|
        #![trigger net.contains_key(x)]
        net.contains_key(x) && net[x].clock is None implies net[x].eval.is_level() by {
        if !free.contains(x) {
            lemma_stateless_is_level(net[x].eval);
        }
    }
}

/// A settled net with the wiring of a net without memory has no memory
/// either.
pub proof fn lemma_settled_memoryless(base: Net, net: Net, free: Set<ID>)
    requires
        memoryless(base, free),
        same_wiring(base, net),
        net_settled(net),
    ensures
        memoryless(net, free),
{
    assert forall|x: ID| #![trigger net.contains_key(x)] net.contains_key(x) implies net[x].clock
        is None && if free.contains(x) {
        net[x].eval == ReducerView::Hold
    } else {
        is_stateless(net[x].eval) && net[x].settled()
    } by {
        assert(base.contains_key(x));
        assert(same_wiring_gate(base[x], net[x]));
    }
}

/// Setting the output of a free gate of a net without memory and
/// propagating from its consumers leaves a net without memory, where the
/// propagation settles; the other free gates keep their outputs.
pub proof fn lemma_drive_keeps_steady(net: Net, base: Net, free: Set<ID>, id: ID, val: bool)
    requires
        steady(net, base, free),
        net.contains_key(id),
        free.contains(id),
        settles(
            forced(net, id, val),
            targets(net[id].receivers),
            ComponentActor::UpdateState,
            limit(),
        ),
    ensures
        steady(
            traverse(
                forced(net, id, val),
                targets(net[id].receivers),
                ComponentActor::UpdateState,
                limit(),
            ),
            base,
            free,
        ),
        traverse(
            forced(net, id, val),
            targets(net[id].receivers),
            ComponentActor::UpdateState,
            limit(),
        )[id].state == val,
        forall|x: ID|
            #![trigger net.contains_key(x)]
            net.contains_key(x) && free.contains(x) && x != id ==> traverse(
                forced(net, id, val),
                targets(net[id].receivers),
                ComponentActor::UpdateState,
                limit(),
            )[x].state == net[x].state,
{
    let f = forced(net, id, val);
    let seeds = targets(net[id].receivers);
    let q = enqueue_all(Seq::empty(), seeds);
    let last = traverse(f, seeds, ComponentActor::UpdateState, limit());
    lemma_memoryless_settled(net, free);
    lemma_forced_frame(net, id, val);
    lemma_drive_settles(net, id, val);
    lemma_run_keeps_wiring(f, q, ComponentActor::UpdateState, limit());
    lemma_run_keeps_cached(f, q, ComponentActor::UpdateState, limit());
    lemma_value_run_frame(f, q, ComponentActor::UpdateState, limit());
    lemma_same_wiring_chain(net, f, last);
    lemma_same_wiring_chain(base, net, last);
    lemma_wiring_keeps_wf(net, last);
    lemma_same_texts_chain(net, f, last);
    lemma_same_texts_chain(base, net, last);
    lemma_settled_memoryless(net, last, free);
    assert(f.contains_key(id));
    assert(same_wiring_gate(net[id], f[id]));
    assert forall|x: ID|
        #![trigger net.contains_key(x)]
        net.contains_key(x) && free.contains(x) && x != id implies last[x].state
        == net[x].state by {
        assert(f.contains_key(x));
        assert(same_wiring_gate(net[x], f[x]));
    }
}

/// Both propagations of a pulse of the clock source `clk` settle within
/// the limit.
pub open spec fn pulse_settles(net: Net, clk: ID) -> bool {
    let cur = net[clk].state;
    let up = traverse(
        forced(net, clk, !cur),
        targets(net[clk].receivers),
        ComponentActor::UpdateState,
        limit(),
    );
    &&& settles(
        forced(net, clk, !cur),
        targets(net[clk].receivers),
        ComponentActor::UpdateState,
        limit(),
    )
    &&& settles(
        forced(up, clk, cur),
        targets(up[clk].receivers),
        ComponentActor::UpdateState,
        limit(),
    )
}

/// Every propagation of row `n` of the table, played on `net`, settles
/// within the limit.
pub open spec fn row_settles(plan: TruthPlan, net: Net, n: nat) -> bool {
    let net1 = force_all(net, plan.drivers, bits_msb(n, plan.drivers.len()));
    let seeds = consumers(net, plan.drivers);
    let net2 = traverse(net1, seeds, ComponentActor::UpdateState, limit());
    &&& settles(net1, seeds, ComponentActor::UpdateState, limit())
    &&& match plan.clk {
        Some(c) => net2.contains_key(c) ==> pulse_settles(net2, c),
        None => true,
    }
}

/// Every propagation of the first `n` rows of the table, played on `net`,
/// settles within the limit.
pub open spec fn rows_settle(plan: TruthPlan, net: Net, n: nat) -> bool
    decreases n,
{
    n == 0 || (rows_settle(plan, net, (n - 1) as nat) && row_settles(
        plan,
        plan.rows(net, (n - 1) as nat).1,
        (n - 1) as nat,
    ))
}

/// The drivers of the plan are free gates of the net, and the clock source
/// is a free gate that is no driver.
pub open spec fn plan_fits(plan: TruthPlan, net: Net, free: Set<ID>) -> bool {
    &&& forall|i: int|
        0 <= i < plan.drivers.len() ==> net.contains_key(#[trigger] plan.drivers[i])
            && free.contains(plan.drivers[i])
    &&& match plan.clk {
        Some(c) => free.contains(c) && !plan.drivers.contains(c),
        None => true,
    }
}

/// Playing a row on a net without memory leaves a net without memory; the
/// drivers have the outputs they were given, and the other free gates keep
/// theirs.
pub proof fn lemma_row_keeps_steady(plan: TruthPlan, base: Net, net: Net, free: Set<ID>, n: nat)
    requires
        steady(net, base, free),
        plan_fits(plan, net, free),
        row_settles(plan, net, n),
    ensures
        steady(plan.row_net(net, n), base, free),
        forall|x: ID|
            #![trigger net.contains_key(x)]
            net.contains_key(x) && free.contains(x) && !plan.drivers.contains(x) ==> plan.row_net(
                net,
                n,
            )[x].state == net[x].state,
        forall|i: int|
            0 <= i < plan.drivers.len() ==> plan.row_net(net, n)[#[trigger] plan.drivers[i]].state
                == force_all(net, plan.drivers, bits_msb(n, plan.drivers.len()))[plan.drivers[i]].state,
{
    let ids = plan.drivers;
    let bits = bits_msb(n, ids.len());
    let net1 = force_all(net, ids, bits);
    let seeds = consumers(net, ids);
    let q = enqueue_all(Seq::empty(), seeds);
    let net2 = traverse(net1, seeds, ComponentActor::UpdateState, limit());
    assert forall|i: int| 0 <= i < ids.len() implies net.contains_key(#[trigger] ids[i]) by {}
    lemma_force_all_frame(net, ids, bits);
    lemma_memoryless_settled(net, free);
    lemma_wiring_keeps_wf(net, net1);
    lemma_enqueue_all(Seq::empty(), seeds);
    assert forall|x: ID|
        #![trigger net1.contains_key(x)]
        net1.contains_key(x) && !net1[x].settled() implies q.contains(x) by {
        assert(net.contains_key(x));
        assert(same_wiring_gate(net[x], net1[x]));
        if !free.contains(x) {
            assert(!ids.contains(x)) by {
                if ids.contains(x) {
                    let i = choose|i: int| 0 <= i < ids.len() && ids[i] == x;
                    assert(free.contains(ids[i]));
                }
            }
            if !seeds.contains(x) {
                assert(net1[x].pin_values == net[x].pin_values);
                assert(net1[x].state == net[x].state);
                assert(net[x].settled());
            }
        }
    }
    lemma_run_settles(net1, q, ComponentActor::UpdateState, limit(), Set::full());
    lemma_run_keeps_wiring(net1, q, ComponentActor::UpdateState, limit());
    lemma_run_keeps_cached(net1, q, ComponentActor::UpdateState, limit());
    lemma_value_run_frame(net1, q, ComponentActor::UpdateState, limit());
    lemma_same_wiring_chain(net, net1, net2);
    lemma_same_wiring_chain(base, net, net2);
    lemma_wiring_keeps_wf(net, net2);
    lemma_same_texts_chain(net, net1, net2);
    lemma_same_texts_chain(base, net, net2);
    assert(net_settled(net2)) by {
        assert forall|x: ID| #![trigger net2.contains_key(x)] net2.contains_key(x) implies net2[x].settled() by {
            assert(Set::<ID>::full().contains(x));
        }
    }
    lemma_settled_memoryless(net, net2, free);
    assert(steady(net2, base, free));
    assert forall|x: ID|
        #![trigger net.contains_key(x)]
        net.contains_key(x) && free.contains(x) implies net2[x].state == net1[x].state by {
        assert(net1.contains_key(x));
        assert(same_wiring_gate(net[x], net1[x]));
    }
    let last = plan.row_net(net, n);
    match plan.clk {
        Some(c) => {
            if net2.contains_key(c) {
                let cur = net2[c].state;
                let up = traverse(
                    forced(net2, c, !cur),
                    targets(net2[c].receivers),
                    ComponentActor::UpdateState,
                    limit(),
                );
                lemma_drive_keeps_steady(net2, base, free, c, !cur);
                assert(up.contains_key(c));
                lemma_drive_keeps_steady(up, base, free, c, cur);
                assert(last == pulse_net(net2, c));
                assert forall|x: ID|
                    #![trigger net.contains_key(x)]
                    net.contains_key(x) && free.contains(x) implies last[x].state
                    == net2[x].state by {
                    assert(net2.contains_key(x));
                    assert(up.contains_key(x));
                }
            }
        },
        None => {},
    }
    assert forall|i: int| 0 <= i < ids.len() implies last[#[trigger] ids[i]].state
        == net1[ids[i]].state by {
        assert(net.contains_key(ids[i]) && free.contains(ids[i]));
    }
}

/// The ranks of a net serve every net of the same wiring.
pub proof fn lemma_ranked_same_wiring(a: Net, b: Net, rank: Map<ID, nat>)
    requires
        ranked(a, rank),
        same_wiring(a, b),
    ensures
        ranked(b, rank),
{
    assert forall|r: ID, p: PIN|
        b.contains_key(r) && p < b[r].pin_sources.len() && #[trigger] b[r].pin_sources[p as int]
            != NULL implies rank[b[r].pin_sources[p as int]] < rank[r] by {
        assert(a.contains_key(r));
        assert(same_wiring_gate(a[r], b[r]));
        assert(a[r].pin_sources[p as int] != NULL);
    }
}

/// Playing rows on a net without memory leaves a net without memory, and
/// the free gates that are no drivers keep their outputs.
pub proof fn lemma_rows_keep_steady(plan: TruthPlan, base: Net, net: Net, free: Set<ID>, m: nat)
    requires
        steady(net, base, free),
        plan_fits(plan, net, free),
        rows_settle(plan, net, m),
    ensures
        steady(plan.rows(net, m).1, base, free),
        plan_fits(plan, plan.rows(net, m).1, free),
        forall|x: ID|
            #![trigger net.contains_key(x)]
            net.contains_key(x) && free.contains(x) && !plan.drivers.contains(x) ==> plan.rows(
                net,
                m,
            ).1[x].state == net[x].state,
    decreases m,
{
    if m > 0 {
        lemma_rows_keep_steady(plan, base, net, free, (m - 1) as nat);
        let prev = plan.rows(net, (m - 1) as nat).1;
        lemma_row_keeps_steady(plan, base, prev, free, (m - 1) as nat);
        let last = plan.rows(net, m).1;
        assert(last == plan.row_net(prev, (m - 1) as nat));
        assert(last.dom() == net.dom());
        assert forall|x: ID|
            #![trigger net.contains_key(x)]
            net.contains_key(x) && free.contains(x) && !plan.drivers.contains(x) implies last[x].state
            == net[x].state by {
            assert(prev.contains_key(x));
        }
    } else {
        assert(net.dom() == base.dom());
    }
}

/// Two nets without memory and of one wiring give the same rows, where
/// their free gates that are no drivers have the same outputs.
pub proof fn lemma_rows_agree(
    plan: TruthPlan,
    base: Net,
    a: Net,
    b: Net,
    free: Set<ID>,
    rank: Map<ID, nat>,
    m: nat,
)
    requires
        steady(a, base, free),
        steady(b, base, free),
        plan_fits(plan, a, free),
        ranked(base, rank),
        forall|i: int| 0 <= i < plan.outs.len() ==> base.contains_key(#[trigger] plan.outs[i]),
        forall|x: ID|
            #![trigger a.contains_key(x)]
            a.contains_key(x) && free.contains(x) && !plan.drivers.contains(x) ==> a[x].state
                == b[x].state,
        rows_settle(plan, a, m),
        rows_settle(plan, b, m),
    ensures
        plan.rows(a, m).0 == plan.rows(b, m).0,
    decreases m,
{
    if m > 0 {
        let k = (m - 1) as nat;
        assert(a.dom() == base.dom() && b.dom() == base.dom());
        assert(plan_fits(plan, b, free));
        lemma_rows_agree(plan, base, a, b, free, rank, k);
        lemma_rows_keep_steady(plan, base, a, free, k);
        lemma_rows_keep_steady(plan, base, b, free, k);
        let pa = plan.rows(a, k).1;
        let pb = plan.rows(b, k).1;
        lemma_row_keeps_steady(plan, base, pa, free, k);
        lemma_row_keeps_steady(plan, base, pb, free, k);
        let ra = plan.row_net(pa, k);
        let rb = plan.row_net(pb, k);
        assert(pa.dom() == base.dom() && pb.dom() == base.dom());
        assert forall|i: int| 0 <= i < plan.drivers.len() implies pa.contains_key(
            #[trigger] plan.drivers[i],
        ) by {}
        lemma_force_all_agree(pa, pb, plan.drivers, bits_msb(k, plan.drivers.len()));
        assert(ra.dom() == base.dom() && rb.dom() == base.dom());
        assert(agree_on(ra, rb, free)) by {
            assert forall|x: ID|
                #![trigger ra.contains_key(x)]
                ra.contains_key(x) && free.contains(x) implies ra[x].state == rb[x].state by {
                assert(pa.contains_key(x) && pb.contains_key(x));
                assert(a.contains_key(x));
                if plan.drivers.contains(x) {
                    let i = choose|i: int| 0 <= i < plan.drivers.len() && plan.drivers[i] == x;
                    assert(ra[plan.drivers[i]].state == rb[plan.drivers[i]].state);
                }
            }
        }
        lemma_ranked_same_wiring(base, ra, rank);
        assert(same_wiring(ra, rb)) by {
            assert forall|x: ID| #![trigger ra.contains_key(x)] ra.contains_key(x) implies same_wiring_gate(
                ra[x],
                rb[x],
            ) by {
                assert(base.contains_key(x));
                assert(same_wiring_gate(base[x], ra[x]));
                assert(same_wiring_gate(base[x], rb[x]));
            }
        }
        assert(states_of(ra, plan.outs) =~= states_of(rb, plan.outs)) by {
            assert forall|i: int| 0 <= i < plan.outs.len() implies states_of(ra, plan.outs)[i]
                == states_of(rb, plan.outs)[i] by {
                assert(base.contains_key(plan.outs[i]));
                assert(ra.contains_key(plan.outs[i]));
                lemma_settled_unique(ra, rb, free, rank, plan.outs[i]);
            }
        }
    }
}

/// The free gates of a circuit: its drivers and its clock source.
pub open spec fn free_gates(c: CircuitView) -> Set<ID> {
    Set::new(|x: ID| c.drivers().contains(x) || c.clk == Some(x))
}

/// Building the truth table of a circuit twice gives the same table, where
/// the circuit has no memory: no wire leads back, no gate has an edge
/// detector, the drivers and the clock source hold what they are given, the
/// other gates have logic that does not read their own output and are
/// settled, and every propagation of both builds settles within the
/// limit.
pub proof fn lemma_truth_table_twice(c: CircuitView, rank: Map<ID, nat>, rows: nat)
    requires
        c.wf(),
        memoryless(c.gates, free_gates(c)),
        ranked(c.gates, rank),
        rows_settle(c.truth_plan(), c.gates, rows),
        rows_settle(c.truth_plan(), c.truth_plan().rows(c.gates, rows).1, rows),
    ensures
        (CircuitView { gates: c.truth_plan().rows(c.gates, rows).1, ..c }).truth_plan()
            == c.truth_plan(),
        (CircuitView { gates: c.truth_plan().rows(c.gates, rows).1, ..c }).truth_cols()
            == c.truth_cols(),
        c.truth_plan().rows(c.truth_plan().rows(c.gates, rows).1, rows).0 == c.truth_plan().rows(
            c.gates,
            rows,
        ).0,
{
    let plan = c.truth_plan();
    let free = free_gates(c);
    let base = c.gates;
    let after = plan.rows(base, rows).1;
    let c2 = CircuitView { gates: after, ..c };
    lemma_drivers_exist(c, c.last_id as int);
    lemma_drivers_characterised(c);
    lemma_table_gates(c);
    lemma_ordered_by_same(c.formula_of(), c.drivers());
    assert(same_wiring(base, base));
    assert(same_texts(base, base));
    assert(steady(base, base, free));
    assert(plan_fits(plan, base, free)) by {
        assert forall|i: int| 0 <= i < plan.drivers.len() implies base.contains_key(
            #[trigger] plan.drivers[i],
        ) && free.contains(plan.drivers[i]) by {
            assert(plan.drivers.contains(plan.drivers[i]));
            assert(c.drivers().contains(plan.drivers[i]));
        }
        match plan.clk {
            Some(clk) => {
                assert(!c.is_driver(clk));
                assert(!c.drivers().contains(clk));
                assert(!plan.drivers.contains(clk));
            },
            None => {},
        }
    }
    lemma_rows_keep_steady(plan, base, base, free, rows);
    lemma_drivers_of_same_wiring(c, c2, c.last_id as int);
    assert(c2.drivers() == c.drivers());
    assert forall|i: int| 0 <= i < c.drivers().len() implies c2.formula_of()(
        #[trigger] c.drivers()[i],
    ) == c.formula_of()(c.drivers()[i]) by {
        assert(base.contains_key(c.drivers()[i]));
    }
    lemma_ordered_by_agree(c2.formula_of(), c.formula_of(), c.drivers());
    assert forall|i: int| 0 <= i < c.outputs.len() implies c2.label_of()(#[trigger] c.outputs[i])
        == c.label_of()(c.outputs[i]) by {
        assert(base.contains_key(c.outputs[i]));
        assert(same_wiring_gate(base[c.outputs[i]], after[c.outputs[i]]));
    }
    lemma_ordered_by_agree(c2.label_of(), c.label_of(), c.outputs);
    assert(c2.truth_plan() == plan);
    assert(c2.truth_cols() =~= c.truth_cols()) by {
        assert forall|i: int| 0 <= i < c.truth_cols().len() implies c2.truth_cols()[i]
            == c.truth_cols()[i] by {
            if i < plan.drivers.len() {
                assert(base.contains_key(plan.drivers[i]));
            } else {
                let x = plan.outs[i - plan.drivers.len()];
                assert(base.contains_key(x));
                assert(same_wiring_gate(base[x], after[x]));
            }
        }
    }
    assert forall|i: int| 0 <= i < plan.outs.len() implies base.contains_key(
        #[trigger] plan.outs[i],
    ) by {}
    assert forall|x: ID|
        #![trigger after.contains_key(x)]
        after.contains_key(x) && free.contains(x) && !plan.drivers.contains(x) implies after[x].state
        == base[x].state by {
        assert(base.contains_key(x));
    }
    lemma_rows_agree(plan, base, after, base, free, rank, rows);
}

} // verus!
