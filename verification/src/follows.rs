//! Outputs follow pins: after a propagation that empties its queue, the
//! output of every gate without an edge detector is what its logic gives
//! for its pins, whatever that logic is.

use vstd::prelude::*;
use crate::circuit::{cut_inputs, cut_outputs, forced, isolated, limit, with_id, CircuitView};
use crate::components::DefView;
use crate::formulas::lemma_compile_run_frame;
use crate::invariants::{lemma_cut_inputs_frame, lemma_cut_outputs_frame};
use crate::components::GateView;
use crate::network::{
    act, deliver, edge_has_slot, enqueue_all, lemma_act_keeps_wiring, lemma_deliver_keeps_wiring,
    lemma_deliver_misses, lemma_enqueue_all, lemma_expr_run_keeps_levels, lemma_same_wiring_chain,
    lemma_wiring_keeps_wf, net_wf, run, same_levels_gate, same_wiring, settles, targets, traverse,
    ComponentActor, Net,
};
use crate::types::ID;

verus! {

/// The output of every gate without an edge detector follows its pins.
pub open spec fn net_follows(net: Net) -> bool {
    forall|id: ID| #![trigger net.contains_key(id)] net.contains_key(id) ==> net[id].follows_pins()
}

/// Every gate of `s` whose output does not follow its pins stands in the
/// queue.
pub open spec fn stale_queued(net: Net, q: Seq<ID>, s: Set<ID>) -> bool {
    forall|id: ID|
        #![trigger net.contains_key(id)]
        net.contains_key(id) && s.contains(id) && !net[id].follows_pins() ==> q.contains(id)
}

/// The output of a gate that was just evaluated follows its pins.
pub proof fn lemma_evaluated_follows(g: GateView)
    ensures
        g.evaluated().follows_pins(),
{
}

/// A value visit keeps in the queue every gate of `s` whose output does
/// not follow its pins.
pub proof fn lemma_act_keeps_stale_queued(
    net: Net,
    q: Seq<ID>,
    id: ID,
    actor: ComponentActor,
    s: Set<ID>,
)
    requires
        net_wf(net),
        actor.on_values(),
        stale_queued(net, seq![id] + q, s),
    ensures
        stale_queued(act(net, q, id, actor).0, act(net, q, id, actor).1, s),
{
    let n2 = act(net, q, id, actor).0;
    let q2 = act(net, q, id, actor).1;
    let full = seq![id] + q;
    lemma_act_keeps_wiring(net, q, id, actor);
    assert forall|x: ID|
        #![trigger n2.contains_key(x)]
        n2.contains_key(x) && s.contains(x) && !n2[x].follows_pins() implies q2.contains(x) by {
        assert(net.contains_key(x));
        if !net.contains_key(id) {
            assert(full.contains(x));
            let i = choose|i: int| 0 <= i < full.len() && full[i] == x;
            assert(i != 0);
            assert(q[i - 1] == x);
        } else {
            let g = net[id];
            let g2 = g.evaluated();
            let base = net.insert(id, g2);
            lemma_evaluated_follows(g);
            let ids = targets(g.receivers);
            lemma_enqueue_all(q, ids);
            assert(!ids.contains(id)) by {
                if ids.contains(id) {
                    let i = choose|i: int| 0 <= i < ids.len() && ids[i] == id;
                    assert(edge_has_slot(net, id, g.receivers[i]));
                }
            }
            if actor == ComponentActor::UpdateState && g2.state == g.state {
                assert(n2 == base);
                assert(q2 == q);
                if x != id {
                    assert(n2[x] == net[x]);
                    assert(full.contains(x));
                    let i = choose|i: int| 0 <= i < full.len() && full[i] == x;
                    assert(q[i - 1] == x);
                } else {
                    assert(n2[x] == g2);
                }
            } else {
                assert(n2 == deliver(base, g.receivers, g2.state));
                assert(q2 == enqueue_all(q, ids));
                if ids.contains(x) {
                    assert(q2.contains(x));
                } else {
                    lemma_deliver_misses(base, g.receivers, g2.state, x);
                    if x != id {
                        assert(n2[x] == net[x]);
                        assert(full.contains(x));
                        let i = choose|i: int| 0 <= i < full.len() && full[i] == x;
                        assert(q[i - 1] == x);
                        assert(q.contains(x));
                        assert(q2.contains(x));
                    } else {
                        assert(n2[x] == g2);
                    }
                }
            }
        }
    }
}

/// After a value traversal that empties its queue the output of every
/// gate of `s` follows its pins, where at the start every gate of `s` of
/// which that did not hold stood in the queue.
pub proof fn lemma_run_follows(net: Net, q: Seq<ID>, actor: ComponentActor, fuel: nat, s: Set<ID>)
    requires
        net_wf(net),
        actor.on_values(),
        stale_queued(net, q, s),
        run(net, q, actor, fuel).1.len() == 0,
    ensures
        forall|x: ID|
            #![trigger run(net, q, actor, fuel).0.contains_key(x)]
            run(net, q, actor, fuel).0.contains_key(x) && s.contains(x) ==> run(
                net,
                q,
                actor,
                fuel,
            ).0[x].follows_pins(),
    decreases fuel,
{
    if q.len() == 0 {
        assert forall|x: ID| #![trigger net.contains_key(x)] net.contains_key(x) && s.contains(x)
            implies net[x].follows_pins() by {
            if !net[x].follows_pins() {
                assert(q.contains(x));
            }
        }
    } else if fuel == 0 {
    } else {
        let rest = q.skip(1);
        assert(seq![q[0]] + rest =~= q);
        lemma_act_keeps_stale_queued(net, rest, q[0], actor, s);
        let next = act(net, rest, q[0], actor);
        lemma_act_keeps_wiring(net, rest, q[0], actor);
        lemma_wiring_keeps_wf(net, next.0);
        lemma_run_follows(next.0, next.1, actor, (fuel - 1) as nat, s);
    }
}

/// After a value traversal that empties its queue every output follows
/// its pins, where every output followed its pins before.
pub proof fn lemma_values_keep_following(net: Net, seeds: Seq<ID>, actor: ComponentActor)
    requires
        net_wf(net),
        net_follows(net),
        actor.on_values(),
        settles(net, seeds, actor, limit()),
    ensures
        net_follows(traverse(net, seeds, actor, limit())),
{
    lemma_run_follows(net, enqueue_all(Seq::empty(), seeds), actor, limit(), Set::full());
}

/// A formula traversal changes no output and no pin value: outputs that
/// followed their pins still do.
pub proof fn lemma_formulas_keep_following(net: Net, seeds: Seq<ID>, actor: ComponentActor)
    requires
        net_follows(net),
        !actor.on_values(),
    ensures
        net_follows(traverse(net, seeds, actor, limit())),
{
    let last = traverse(net, seeds, actor, limit());
    lemma_expr_run_keeps_levels(net, enqueue_all(Seq::empty(), seeds), actor, limit());
    assert forall|x: ID| #![trigger last.contains_key(x)] last.contains_key(x) implies last[x].follows_pins() by {
        assert(net.contains_key(x));
        assert(same_levels_gate(net[x], last[x]));
    }
}

/// Compiling, refreshing and powering on keep the outputs following their
/// pins, where the value pass of each empties its queue.
pub proof fn lemma_passes_keep_following(c: CircuitView)
    requires
        c.wf(),
        c.follows(),
    ensures
        c.compiled().follows(),
        settles(c.gates, c.drivers(), ComponentActor::UpdateState, limit()) ==> c.refreshed().follows(),
        settles(c.compiled().gates, c.drivers(), ComponentActor::PowerOn, limit())
            ==> c.powered().follows(),
{
    lemma_compile_run_frame(
        c.gates,
        enqueue_all(Seq::empty(), c.drivers()),
        Set::empty(),
        limit(),
    );
    let made = c.compiled().gates;
    assert forall|x: ID| #![trigger made.contains_key(x)] made.contains_key(x) implies made[x].follows_pins() by {
        assert(c.gates.contains_key(x));
        assert(same_levels_gate(c.gates[x], made[x]));
    }
    if settles(c.gates, c.drivers(), ComponentActor::UpdateState, limit()) {
        lemma_values_keep_following(c.gates, c.drivers(), ComponentActor::UpdateState);
    }
    if settles(c.compiled().gates, c.drivers(), ComponentActor::PowerOn, limit()) {
        lemma_wiring_keeps_wf(c.gates, c.compiled().gates);
        lemma_values_keep_following(c.compiled().gates, c.drivers(), ComponentActor::PowerOn);
    }
}

/// After the two traversals that follow an edit at gate `seed` every
/// output follows its pins, where the value traversal empties its queue
/// and every output but that of `seed` followed its pins before.
pub proof fn lemma_edit_follows(net: Net, seed: ID)
    requires
        net_wf(net),
        forall|x: ID|
            #![trigger net.contains_key(x)]
            net.contains_key(x) && x != seed ==> net[x].follows_pins(),
        settles(net, seq![seed], ComponentActor::UpdateState, limit()),
    ensures
        net_follows(
            traverse(
                traverse(net, seq![seed], ComponentActor::UpdateState, limit()),
                seq![seed],
                ComponentActor::SetExpressions,
                limit(),
            ),
        ),
{
    let q = enqueue_all(Seq::empty(), seq![seed]);
    lemma_enqueue_all(Seq::empty(), seq![seed]);
    assert(seq![seed][0] == seed);
    assert(q.contains(seed));
    lemma_run_follows(net, q, ComponentActor::UpdateState, limit(), Set::full());
    let mid = traverse(net, seq![seed], ComponentActor::UpdateState, limit());
    let last = traverse(mid, seq![seed], ComponentActor::SetExpressions, limit());
    lemma_expr_run_keeps_levels(mid, q, ComponentActor::SetExpressions, limit());
    assert forall|x: ID| #![trigger last.contains_key(x)] last.contains_key(x) implies last[x].follows_pins() by {
        assert(mid.contains_key(x));
        assert(same_levels_gate(mid[x], last[x]));
    }
}

/// After the output of gate `id` was set to `val` and the change was
/// propagated from its consumers, every output follows its pins, where the
/// propagation empties its queue, every output followed its pins before,
/// and `val` is an output that the logic of the component can give for its
/// pins.
pub proof fn lemma_drive_follows(net: Net, id: ID, val: bool)
    requires
        net_wf(net),
        net_follows(net),
        net.contains_key(id),
        (GateView { state: val, ..net[id] }).follows_pins(),
        settles(forced(net, id, val), targets(net[id].receivers), ComponentActor::UpdateState, limit()),
    ensures
        net_follows(
            traverse(
                forced(net, id, val),
                targets(net[id].receivers),
                ComponentActor::UpdateState,
                limit(),
            ),
        ),
{
    let base = net.insert(id, GateView { state: val, ..net[id] });
    let net1 = forced(net, id, val);
    let ids = targets(net[id].receivers);
    let q = enqueue_all(Seq::empty(), ids);
    assert(base.dom() =~= net.dom());
    assert(same_wiring(net, base));
    lemma_deliver_keeps_wiring(base, net[id].receivers, val, Seq::empty());
    lemma_same_wiring_chain(net, base, net1);
    lemma_wiring_keeps_wf(net, net1);
    lemma_enqueue_all(Seq::empty(), ids);
    assert forall|x: ID|
        #![trigger net1.contains_key(x)]
        net1.contains_key(x) && !net1[x].follows_pins() implies q.contains(x) by {
        if !ids.contains(x) {
            lemma_deliver_misses(base, net[id].receivers, val, x);
            assert(net.contains_key(x));
        }
    }
    lemma_run_follows(net1, q, ComponentActor::UpdateState, limit(), Set::full());
}

/// A new gate and a new input keep the outputs following their pins: a
/// new gate has the output that its logic gives for pins that are all low.
pub proof fn lemma_added_follows(c: CircuitView, d: DefView, lab: Seq<char>, init: bool, id: ID)
    requires
        c.follows(),
    ensures
        net_follows(c.gates.insert(id, with_id(GateView::fresh(d), id))),
        net_follows(c.gates.insert(id, with_id(GateView::input(lab, init), id))),
{
    let made = c.gates.insert(id, with_id(GateView::fresh(d), id));
    assert forall|x: ID| #![trigger made.contains_key(x)] made.contains_key(x) implies made[x].follows_pins() by {
        if x != id {
            assert(c.gates.contains_key(x));
        }
    }
    let fed = c.gates.insert(id, with_id(GateView::input(lab, init), id));
    assert forall|x: ID| #![trigger fed.contains_key(x)] fed.contains_key(x) implies fed[x].follows_pins() by {
        if x != id {
            assert(c.gates.contains_key(x));
        }
    }
}

/// A new label keeps the outputs following their pins.
pub proof fn lemma_relabelled_follows(c: CircuitView, id: ID, lab: Seq<char>)
    requires
        c.follows(),
        c.gates.contains_key(id),
    ensures
        c.relabelled(id, lab).follows(),
{
    let named = c.gates.insert(id, GateView { label: lab, ..c.gates[id] });
    assert forall|x: ID| #![trigger named.contains_key(x)] named.contains_key(x) implies named[x].follows_pins() by {
        if x != id {
            assert(c.gates.contains_key(x));
        }
    }
    lemma_formulas_keep_following(named, seq![id], ComponentActor::SetExpressions);
}

/// A pulse of a clock source that holds its output keeps the outputs
/// following their pins, where both of its propagations empty their
/// queues.
pub proof fn lemma_pulsed_follows(c: CircuitView, clk: ID)
    requires
        c.wf(),
        c.follows(),
        c.gates.contains_key(clk),
        c.gates[clk].holds(),
        c.pulse_settles(clk),
    ensures
        c.pulsed(clk).follows(),
{
    let cur = c.gates[clk].state;
    lemma_drive_follows(c.gates, clk, !cur);
    let up = c.driven(clk, !cur);
    let f = forced(c.gates, clk, !cur);
    crate::combinational::lemma_forced_frame(c.gates, clk, !cur);
    crate::network::lemma_run_keeps_wiring(
        f,
        enqueue_all(Seq::empty(), targets(c.gates[clk].receivers)),
        ComponentActor::UpdateState,
        limit(),
    );
    lemma_wiring_keeps_wf(f, up.gates);
    assert(f.contains_key(clk));
    assert(up.gates.contains_key(clk));
    assert(crate::network::same_wiring_gate(c.gates[clk], f[clk]));
    assert(crate::network::same_wiring_gate(f[clk], up.gates[clk]));
    lemma_drive_follows(up.gates, clk, cur);
}

/// Taking a gate out keeps the outputs following their pins, where the
/// propagation from its former consumers empties its queue.
pub proof fn lemma_removed_follows(c: CircuitView, id: ID)
    requires
        c.wf(),
        c.follows(),
        c.gates.contains_key(id),
        settles(
            isolated(c.gates, id),
            targets(c.gates[id].receivers),
            ComponentActor::UpdateState,
            limit(),
        ),
    ensures
        c.removed(id).follows(),
{
    let net = c.gates;
    let full = net[id].receivers;
    assert(net[id].wf());
    let n = net[id].num_pins();
    lemma_cut_inputs_frame(net, id, n);
    let mid = cut_inputs(net, id, n);
    lemma_cut_outputs_frame(mid, id, full, full.len());
    assert(full.take(full.len() as int) =~= full);
    let cut = cut_outputs(mid, id, full);
    crate::network::lemma_remove_isolated_keeps_wf(cut, id);
    let alone = isolated(net, id);
    assert(alone == cut.remove(id));
    let seeds = targets(full);
    let q = enqueue_all(Seq::empty(), seeds);
    lemma_enqueue_all(Seq::empty(), seeds);
    assert forall|x: ID|
        #![trigger alone.contains_key(x)]
        alone.contains_key(x) && !alone[x].follows_pins() implies q.contains(x) by {
        assert(net.contains_key(x));
        assert(mid.contains_key(x));
        if !seeds.contains(x) {
            assert(same_levels_gate(net[x], mid[x]));
            assert(same_levels_gate(mid[x], cut[x]));
            assert(net[x].follows_pins());
        }
    }
    lemma_run_follows(alone, q, ComponentActor::UpdateState, limit(), Set::full());
    let last = c.removed(id).gates;
    assert forall|x: ID| #![trigger last.contains_key(x)] last.contains_key(x) implies last[x].follows_pins() by {
        assert(Set::<ID>::full().contains(x));
    }
}

} // verus!
