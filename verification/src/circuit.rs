//! The circuit: a registry of gate kinds, a store of gates, and the
//! operations that edit the wiring and propagate values and formulas.

use vstd::prelude::*;
use vstd::string::*;
use std::collections::{HashMap, VecDeque};
use crate::bootstrap::{bootstrap_ckt, builtin_defs};
use crate::components::{
    compile_component, copy_edges, deliver_value, enqueue_id, power_on_component,
    set_expressions, store_wf,
    targets_of, update_component_state, ComponentDefParams, DefView, Gate, GateView,
};
use crate::combinational::{lemma_forced_frame, lemma_value_run_frame};
use crate::follows::{lemma_drive_follows, lemma_edit_follows, net_follows};
use crate::formulas::{
    compile_ends, compile_net, compile_run, formula_current, lemma_compile_current,
    lemma_compile_run_frame, reached_in, visit_kind, visited_with,
};
use crate::network::{
    deliver, enqueue_all, level_on, same_levels, lemma_act_keeps_wiring, lemma_deliver_keeps_wiring,
    lemma_deliver_misses, lemma_enqueue_all, lemma_expr_run_keeps_levels, lemma_link_keeps_wf,
    lemma_link_then_unlink, lemma_unlink_then_link, same_edges,
    lemma_remove_isolated_keeps_wf, lemma_remove_value_unique, lemma_run_settles,
    lemma_act_keeps_cached, lemma_link_keeps_cached, lemma_remove_isolated_keeps_cached,
    lemma_restate_keeps_cached, lemma_same_wiring_chain, lemma_unlink_keeps_cached,
    lemma_unlink_keeps_wf, lemma_wiring_keeps_wf, level_driven, linked, pin_value, source_value,
    values_cached,
    net_of, net_settled, net_wf, run, same_wiring, settles, targets, traverse, unlinked,
    ComponentActor, Net,
};
use crate::table::{bit_of, bits_msb, pow2_usize, unpack_bits, Table};
use crate::types::{CircuitError, CompType, ErrorView, ID, NULL, PIN, PROPAGATION_LIMIT};
use crate::utils::{lex_leq, str_leq, texts};
use vstd::arithmetic::power2::pow2;

verus! {

broadcast use vstd::std_specs::hash::group_hash_axioms;

/// A gate-level circuit.
pub struct BCircuit {
    component_definitions: Vec<ComponentDefParams>,
    components: HashMap<ID, Gate>,
    inputs: Vec<(String, ID)>,
    outputs: Vec<ID>,
    last_id: ID,
    exec_queue: VecDeque<ID>,
    active: bool,
    clk: Option<ID>,
}

/// A circuit as plain values.
pub struct CircuitView {
    /// The registered kinds, in order of their first registration.
    pub defs: Seq<DefView>,
    /// The gates by identifier.
    pub gates: Net,
    /// The labelled inputs, in order of creation.
    pub inputs: Seq<(Seq<char>, ID)>,
    /// The tracked outputs, in order of tracking.
    pub outputs: Seq<ID>,
    /// The identifier handed out last.
    pub last_id: ID,
    /// The work queue.
    pub queue: Seq<ID>,
    /// Whether the circuit is powered on.
    pub active: bool,
    /// The clock source, if one is configured.
    pub clk: Option<ID>,
}

/// The names of a list of definitions.
pub open spec fn def_names(defs: Seq<DefView>) -> Seq<Seq<char>> {
    defs.map_values(|d: DefView| d.name)
}

/// The place of the definition named `name`, if there is one.
pub open spec fn find_def(defs: Seq<DefView>, name: Seq<char>) -> Option<int> {
    def_names(defs).index_of_first(name)
}

/// The registry after `d` was registered: it takes the place of the
/// definition of the same name, or the last place where there is none.
pub open spec fn register(defs: Seq<DefView>, d: DefView) -> Seq<DefView> {
    match find_def(defs, d.name) {
        Some(i) => defs.update(i, d),
        None => defs.push(d),
    }
}

/// The registry after each of `ds` was registered in turn.
pub open spec fn register_all(defs: Seq<DefView>, ds: Seq<DefView>) -> Seq<DefView>
    decreases ds.len(),
{
    if ds.len() == 0 {
        defs
    } else {
        register(register_all(defs, ds.drop_last()), ds.last())
    }
}

/// The labels of a list of labelled inputs.
pub open spec fn input_labels(inputs: Seq<(Seq<char>, ID)>) -> Seq<Seq<char>> {
    inputs.map_values(|e: (Seq<char>, ID)| e.0)
}

/// The input that carries `label`, if there is one: the last one listed
/// under that label.
pub open spec fn input_of(inputs: Seq<(Seq<char>, ID)>, label: Seq<char>) -> Option<ID> {
    match input_labels(inputs).index_of_last(label) {
        Some(i) => Some(inputs[i].1),
        None => None,
    }
}

/// The component with another identifier.
pub open spec fn with_id(g: GateView, id: ID) -> GateView {
    GateView { id: id, ..g }
}

impl CircuitView {
    /// The wiring is consistent in both directions, every pin holds the
    /// output of the component that drives it, every identifier in use was handed
    /// out, the work queue is empty, and the tracked outputs are gates of
    /// the circuit, each listed once.
    pub open spec fn wf(self) -> bool {
        &&& net_wf(self.gates)
        &&& values_cached(self.gates)
        &&& self.last_id >= 0
        &&& forall|id: ID|
            #![trigger self.gates.contains_key(id)]
            self.gates.contains_key(id) ==> 0 < id <= self.last_id
        &&& self.queue.len() == 0
        &&& self.outputs.no_duplicates()
        &&& forall|i: int|
            0 <= i < self.outputs.len() ==> self.gates.contains_key(#[trigger] self.outputs[i])
    }

    /// A circuit with no gates and the built-in kinds.
    pub open spec fn initial() -> CircuitView {
        CircuitView {
            defs: register_all(Seq::empty(), builtin_defs()),
            gates: Map::empty(),
            inputs: Seq::empty(),
            outputs: Seq::empty(),
            last_id: 0,
            queue: Seq::empty(),
            active: false,
            clk: None,
        }
    }

    /// Whether gate `id` takes part in driving the circuit: it is an input
    /// or a sequential gate, and not the clock source.
    pub open spec fn is_driver(self, id: ID) -> bool {
        &&& self.gates.contains_key(id)
        &&& self.gates[id].comp_type != CompType::Combinational
        &&& self.clk != Some(id)
    }

    /// The drivers among the identifiers `1..=n`, in ascending order.
    pub open spec fn drivers_upto(self, n: int) -> Seq<ID>
        decreases n,
    {
        if n <= 0 {
            Seq::empty()
        } else if self.is_driver(n as ID) {
            self.drivers_upto(n - 1).push(n as ID)
        } else {
            self.drivers_upto(n - 1)
        }
    }

    /// The drivers of the circuit in ascending order of identifier.
    pub open spec fn drivers(self) -> Seq<ID> {
        self.drivers_upto(self.last_id as int)
    }

    /// Every gate of the circuit is settled.
    pub open spec fn settled(self) -> bool {
        net_settled(self.gates)
    }

    /// Every gate without an edge detector has a level function for its
    /// logic.
    pub open spec fn level_driven(self) -> bool {
        level_driven(self.gates)
    }

    /// Every driver without an edge detector has a level function for its
    /// logic. An input that holds its output is such a driver.
    pub open spec fn drivers_level(self) -> bool {
        level_on(self.gates, Set::new(|id: ID| self.drivers().contains(id)))
    }

    /// The output of every gate without an edge detector is what its logic
    /// gives for its pins.
    pub open spec fn follows(self) -> bool {
        net_follows(self.gates)
    }
}


/// The limit of visits of one traversal, as a number of the model.
pub open spec fn limit() -> nat {
    PROPAGATION_LIMIT as nat
}

/// The net after the output of gate `id` was set to `val` from outside: the
/// value is written to the pin of each forward edge, but nothing is
/// evaluated yet.
pub open spec fn forced(net: Net, id: ID, val: bool) -> Net {
    deliver(net.insert(id, GateView { state: val, ..net[id] }), net[id].receivers, val)
}

/// The net after the wires into the first `k` pins of gate `id` were cut.
pub open spec fn cut_inputs(net: Net, id: ID, k: nat) -> Net
    decreases k,
{
    if k == 0 {
        net
    } else {
        let prev = cut_inputs(net, id, (k - 1) as nat);
        let src = prev[id].pin_sources[k - 1];
        if src != NULL {
            unlinked(prev, id, (k - 1) as PIN, src)
        } else {
            prev
        }
    }
}

/// The net after the wires along the forward edges `recvs` of gate `id`
/// were cut.
pub open spec fn cut_outputs(net: Net, id: ID, recvs: Seq<(ID, PIN)>) -> Net
    decreases recvs.len(),
{
    if recvs.len() == 0 {
        net
    } else {
        unlinked(cut_outputs(net, id, recvs.drop_last()), recvs.last().0, recvs.last().1, id)
    }
}

/// The net without gate `id` and without every wire that touched it.
pub open spec fn isolated(net: Net, id: ID) -> Net {
    cut_outputs(cut_inputs(net, id, net[id].num_pins()), id, net[id].receivers).remove(id)
}

impl CircuitView {
    /// Why gate `e` cannot be wired to pin `p` of gate `r`, if it cannot.
    pub open spec fn connect_fault(self, r: ID, p: PIN, e: ID) -> Option<ErrorView> {
        if !self.gates.contains_key(r) {
            Some(ErrorView::UnknownId(r))
        } else if !self.gates.contains_key(e) {
            Some(ErrorView::UnknownId(e))
        } else if r == e {
            Some(ErrorView::SelfConnectionRejected(r))
        } else if p >= self.gates[r].num_pins() {
            Some(ErrorView::PinOutOfRange(p, self.gates[r].num_pins() as usize))
        } else if self.gates[r].pin_sources[p as int] != NULL {
            Some(ErrorView::PinAlreadyDriven(r, p))
        } else {
            None
        }
    }

    /// Why the wire from gate `e` to pin `p` of gate `r` cannot be cut, if
    /// it cannot.
    pub open spec fn disconnect_fault(self, r: ID, p: PIN, e: ID) -> Option<ErrorView> {
        if !self.gates.contains_key(r) {
            Some(ErrorView::UnknownId(r))
        } else if !self.gates.contains_key(e) {
            Some(ErrorView::UnknownId(e))
        } else if !self.gates[e].receivers.contains((r, p)) {
            Some(ErrorView::EdgeAbsent(e, r, p))
        } else {
            None
        }
    }

    /// The circuit with the gates `net` after the two traversals that follow
    /// an edit at gate `seed`: values first, formulas second.
    pub open spec fn after_edit(self, net: Net, seed: ID) -> CircuitView {
        CircuitView {
            gates: traverse(
                traverse(net, seq![seed], ComponentActor::UpdateState, limit()),
                seq![seed],
                ComponentActor::SetExpressions,
                limit(),
            ),
            ..self
        }
    }

    /// Whether the values settle within the limit once gate `e` is wired to
    /// pin `p` of gate `r`.
    pub open spec fn connect_settles(self, r: ID, p: PIN, e: ID) -> bool {
        settles(linked(self.gates, r, p, e), seq![r], ComponentActor::UpdateState, limit())
    }

    /// Whether the values settle within the limit once the wire from gate
    /// `e` to pin `p` of gate `r` is cut.
    pub open spec fn disconnect_settles(self, r: ID, p: PIN, e: ID) -> bool {
        settles(unlinked(self.gates, r, p, e), seq![r], ComponentActor::UpdateState, limit())
    }

    /// The circuit with gate `e` wired to pin `p` of gate `r`, values and
    /// formulas propagated.
    pub open spec fn wired(self, r: ID, p: PIN, e: ID) -> CircuitView {
        self.after_edit(linked(self.gates, r, p, e), r)
    }

    /// The circuit with the wire from gate `e` to pin `p` of gate `r` cut,
    /// values and formulas propagated.
    pub open spec fn unwired(self, r: ID, p: PIN, e: ID) -> CircuitView {
        self.after_edit(unlinked(self.gates, r, p, e), r)
    }

    /// The circuit after a wire from gate `e` to pin `p` of gate `r` was
    /// tried and taken back: the values went as far as the limit allowed,
    /// then the wire was cut again.
    pub open spec fn wire_undone(self, r: ID, p: PIN, e: ID) -> CircuitView {
        CircuitView {
            gates: unlinked(
                traverse(
                    linked(self.gates, r, p, e),
                    seq![r],
                    ComponentActor::UpdateState,
                    limit(),
                ),
                r,
                p,
                e,
            ),
            ..self
        }
    }

    /// The circuit after the wire from gate `e` to pin `p` of gate `r` was
    /// cut and put back: the values went as far as the limit allowed, then
    /// the wire was laid again.
    pub open spec fn cut_undone(self, r: ID, p: PIN, e: ID) -> CircuitView {
        CircuitView {
            gates: linked(
                traverse(
                    unlinked(self.gates, r, p, e),
                    seq![r],
                    ComponentActor::UpdateState,
                    limit(),
                ),
                r,
                p,
                e,
            ),
            ..self
        }
    }

    /// The circuit after gate `e` was asked to drive pin `p` of gate `r`:
    /// wired where the values settle, and with the wire taken back where
    /// they do not.
    pub open spec fn connected(self, r: ID, p: PIN, e: ID) -> CircuitView {
        if self.connect_settles(r, p, e) {
            self.wired(r, p, e)
        } else {
            self.wire_undone(r, p, e)
        }
    }

    /// The circuit after the wire from gate `e` to pin `p` of gate `r` was
    /// asked to be cut: cut where the values settle, and with the wire put
    /// back where they do not.
    pub open spec fn disconnected(self, r: ID, p: PIN, e: ID) -> CircuitView {
        if self.disconnect_settles(r, p, e) {
            self.unwired(r, p, e)
        } else {
            self.cut_undone(r, p, e)
        }
    }

    /// The circuit after the output of gate `id` was set to `val` and the
    /// change was propagated from its consumers.
    pub open spec fn driven(self, id: ID, val: bool) -> CircuitView {
        CircuitView {
            gates: traverse(
                forced(self.gates, id, val),
                targets(self.gates[id].receivers),
                ComponentActor::UpdateState,
                limit(),
            ),
            ..self
        }
    }

    /// Whether that propagation emptied its queue within the limit.
    pub open spec fn drive_settles(self, id: ID, val: bool) -> bool {
        settles(
            forced(self.gates, id, val),
            targets(self.gates[id].receivers),
            ComponentActor::UpdateState,
            limit(),
        )
    }

    /// The circuit after the clock source was toggled and toggled back.
    pub open spec fn pulsed(self, clk: ID) -> CircuitView {
        let cur = self.gates[clk].state;
        self.driven(clk, !cur).driven(clk, cur)
    }

    /// Whether both propagations of a pulse emptied their queues within the
    /// limit.
    pub open spec fn pulse_settles(self, clk: ID) -> bool {
        let cur = self.gates[clk].state;
        self.drive_settles(clk, !cur) && self.driven(clk, !cur).drive_settles(clk, cur)
    }

    /// The circuit after gate `id` and every wire that touched it were
    /// taken out and the change was propagated from its former consumers.
    pub open spec fn removed(self, id: ID) -> CircuitView {
        CircuitView {
            gates: traverse(
                isolated(self.gates, id),
                targets(self.gates[id].receivers),
                ComponentActor::UpdateState,
                limit(),
            ),
            outputs: self.outputs.remove_value(id),
            ..self
        }
    }

    /// The circuit after gate `id` took the label `lab` and the formulas
    /// were propagated from it.
    pub open spec fn relabelled(self, id: ID, lab: Seq<char>) -> CircuitView {
        CircuitView {
            gates: traverse(
                self.gates.insert(id, GateView { label: lab, ..self.gates[id] }),
                seq![id],
                ComponentActor::SetExpressions,
                limit(),
            ),
            ..self
        }
    }

    /// Whether compiling the formulas from the drivers empties its queue
    /// within the limit.
    pub open spec fn compile_settles(self) -> bool {
        compile_ends(self.gates, self.drivers(), limit())
    }

    /// The circuit after the formulas were compiled from the drivers: the
    /// first visit of a gate forms its formula and passes it on, changed or
    /// not; a later visit passes it on where it changed.
    pub open spec fn compiled(self) -> CircuitView {
        CircuitView { gates: compile_net(self.gates, self.drivers(), limit()), ..self }
    }

    /// The circuit after the values were propagated from the drivers,
    /// stopping at unchanged gates.
    pub open spec fn refreshed(self) -> CircuitView {
        CircuitView {
            gates: traverse(self.gates, self.drivers(), ComponentActor::UpdateState, limit()),
            ..self
        }
    }

    /// The circuit after it was powered on: the formulas and then the
    /// values are propagated from the drivers, the values through every
    /// gate reached, changed or not.
    pub open spec fn powered(self) -> CircuitView {
        CircuitView {
            gates: traverse(
                self.compiled().gates,
                self.drivers(),
                ComponentActor::PowerOn,
                limit(),
            ),
            active: true,
            ..self
        }
    }
}

impl View for BCircuit {
    type V = CircuitView;

    closed spec fn view(&self) -> CircuitView {
        CircuitView {
            defs: self.component_definitions@.map_values(|d: ComponentDefParams| d@),
            gates: net_of(self.components@),
            inputs: self.inputs@.map_values(|e: (String, ID)| (e.0@, e.1)),
            outputs: self.outputs@,
            last_id: self.last_id,
            queue: self.exec_queue@,
            active: self.active,
            clk: self.clk,
        }
    }
}

impl BCircuit {
    /// The invariant of a circuit; every operation keeps it.
    pub open spec fn wf(&self) -> bool {
        self@.wf()
    }

    /// An empty circuit that knows the built-in kinds.
    pub fn new() -> (c: BCircuit)
        ensures
            c@ == CircuitView::initial(),
            c.wf(),
    {
        let mut c = BCircuit {
            component_definitions: Vec::new(),
            components: HashMap::new(),
            inputs: Vec::new(),
            outputs: Vec::new(),
            last_id: 0,
            exec_queue: VecDeque::new(),
            active: false,
            clk: None,
        };
        assert(c@.defs =~= Seq::empty());
        assert(c@.gates =~= Map::empty());
        assert(c@.inputs =~= Seq::empty());
        bootstrap_ckt(&mut c);
        c
    }

    /// Removes every gate and starts the identifiers anew; the registry and
    /// the power state stay.
    pub fn clear_circuit(&mut self)
        ensures
            final(self)@ == (CircuitView {
                gates: Map::empty(),
                inputs: Seq::empty(),
                outputs: Seq::empty(),
                last_id: 0,
                queue: Seq::empty(),
                clk: None,
                ..old(self)@
            }),
            final(self).wf(),
    {
        self.components.clear();
        self.inputs.clear();
        self.outputs.clear();
        self.last_id = 0;
        self.exec_queue.clear();
        self.clk = None;
        assert(self@.gates =~= Map::empty());
        assert(self@.inputs =~= Seq::empty());
    }

    /// The store of gates.
    pub fn components(&self) -> (r: &HashMap<ID, Gate>)
        ensures
            net_of(r@) == self@.gates,
    {
        &self.components
    }

    /// The registered kinds.
    pub fn definitions(&self) -> (r: &Vec<ComponentDefParams>)
        ensures
            r@.map_values(|d: ComponentDefParams| d@) == self@.defs,
    {
        &self.component_definitions
    }

    /// The tracked outputs.
    pub fn outputs(&self) -> (r: &Vec<ID>)
        ensures
            r@ == self@.outputs,
    {
        &self.outputs
    }

    /// The input that carries `label`: the one that was added last under
    /// that label, whether or not it is still in the circuit.
    pub fn input_id(&self, label: &str) -> (r: Option<ID>)
        ensures
            r == input_of(self@.inputs, label@),
    {
        let key = String::from_str(label);
        let ghost names = input_labels(self@.inputs);
        let mut i: usize = self.inputs.len();
        while i > 0
            invariant
                i <= self.inputs@.len(),
                names == input_labels(self@.inputs),
                names.len() == self.inputs@.len(),
                key@ == label@,
                forall|k: int| i <= k < names.len() ==> names[k] != label@,
            decreases i,
        {
            i = i - 1;
            if self.inputs[i].0 == key {
                proof {
                    assert(names[i as int] == label@);
                    names.index_of_last_ensures(label@);
                }
                return Some(self.inputs[i].1);
            }
        }
        proof {
            names.index_of_last_ensures(label@);
        }
        None
    }

    /// The identifier handed out last.
    pub fn last_id(&self) -> (r: ID)
        ensures
            r == self@.last_id,
    {
        self.last_id
    }

    /// Whether the circuit is powered on.
    pub fn is_active(&self) -> (r: bool)
        ensures
            r == self@.active,
    {
        self.active
    }

    /// The clock source, if one is configured.
    pub fn get_clk_id(&self) -> (r: Option<ID>)
        ensures
            r == self@.clk,
    {
        self.clk
    }

    /// Makes gate `id` the clock source.
    pub fn clock(&mut self, id: ID)
        ensures
            final(self)@ == (CircuitView { clk: Some(id), ..old(self)@ }),
    {
        self.clk = Some(id)
    }

    fn find_kind(&self, typ: &str) -> (r: Option<usize>)
        ensures
            match r {
                Some(i) => find_def(self@.defs, typ@) == Some(i as int) && i
                    < self.component_definitions.len(),
                None => find_def(self@.defs, typ@) is None,
            },
    {
        let t = String::from_str(typ);
        let ghost names = def_names(self@.defs);
        let mut i: usize = 0;
        while i < self.component_definitions.len()
            invariant
                i <= self.component_definitions.len(),
                names == def_names(self@.defs),
                names.len() == self.component_definitions.len(),
                t@ == typ@,
                forall|k: int| 0 <= k < i ==> names[k] != typ@,
            decreases self.component_definitions.len() - i,
        {
            if self.component_definitions[i].name == t {
                proof {
                    assert(names[i as int] == typ@);
                    names.index_of_first_ensures(typ@);
                }
                return Some(i);
            }
            i = i + 1;
        }
        proof {
            names.index_of_first_ensures(typ@);
        }
        None
    }

    /// Registers a kind of gate; a kind of the same name is replaced.
    pub fn define_gate(&mut self, p: ComponentDefParams)
        ensures
            final(self)@ == (CircuitView { defs: register(old(self)@.defs, p@), ..old(self)@ }),
    {
        let at = self.find_kind(p.name.as_str());
        match at {
            Some(i) => {
                self.component_definitions[i] = p;
                assert(self@.defs =~= old(self)@.defs.update(i as int, p@));
            },
            None => {
                self.component_definitions.push(p);
                assert(self@.defs =~= old(self)@.defs.push(p@));
            },
        }
    }

    /// Builds a gate of kind `typ` with label `label`; fails where no such
    /// kind is registered.
    pub fn make_component(&self, typ: &str, label: &str) -> (r: Result<Gate, CircuitError>)
        ensures
            match find_def(self@.defs, typ@) {
                Some(i) => r is Ok && r->Ok_0@ == GateView::fresh(
                    DefView { label: label@, ..self@.defs[i] },
                ) && r->Ok_0.wf(),
                None => r is Err && r->Err_0@ == ErrorView::UnknownKind(typ@),
            },
    {
        match self.find_kind(typ) {
            None => Err(CircuitError::UnknownKind(String::from_str(typ))),
            Some(i) => {
                let mut def = self.component_definitions[i].clone();
                def.label = String::from_str(label);
                Ok(Gate::from_params(def))
            },
        }
    }

    /// Hands out the next identifier.
    pub fn new_id(&mut self) -> (id: ID)
        requires
            old(self)@.last_id < i32::MAX,
        ensures
            id == old(self)@.last_id + 1,
            final(self)@ == (CircuitView { last_id: id, ..old(self)@ }),
            old(self).wf() ==> final(self).wf(),
    {
        self.last_id += 1;
        return self.last_id;
    }

    /// Adds a gate of kind `typ`. An identifier is used up whether or not
    /// the kind is known; where it is not, nothing else changes.
    pub fn add_component(&mut self, typ: &str, label: &str) -> (r: Result<ID, CircuitError>)
        requires
            old(self).wf(),
            old(self)@.last_id < i32::MAX,
        ensures
            final(self).wf(),
            match find_def(old(self)@.defs, typ@) {
                Some(i) => r == Ok::<ID, CircuitError>((old(self)@.last_id + 1) as ID) && final(self)@ == (CircuitView {
                    last_id: (old(self)@.last_id + 1) as ID,
                    gates: old(self)@.gates.insert(
                        (old(self)@.last_id + 1) as ID,
                        with_id(
                            GateView::fresh(DefView { label: label@, ..old(self)@.defs[i] }),
                            (old(self)@.last_id + 1) as ID,
                        ),
                    ),
                    ..old(self)@
                }),
                None => r is Err && r->Err_0@ == ErrorView::UnknownKind(typ@) && final(self)@ == (
                CircuitView { last_id: (old(self)@.last_id + 1) as ID, ..old(self)@ }),
            },
    {
        let id = self.new_id();
        let comp = self.make_component(typ, label);
        match comp {
            Ok(mut c) => {
                c.id = id;
                self.insert_gate(id, c);
                return Ok(id);
            },
            Err(e) => Err(e),
        }
    }

    fn insert_gate(&mut self, id: ID, c: Gate)
        requires
            old(self).wf(),
            old(self)@.last_id == id,
            id > 0,
            c.wf(),
            c.id == id,
            c@.receivers.len() == 0,
            forall|p: int| 0 <= p < c@.pin_sources.len() ==> c@.pin_sources[p] == NULL,
            forall|p: int| 0 <= p < c@.pin_values.len() ==> !c@.pin_values[p],
            !old(self)@.gates.contains_key(id),
        ensures
            final(self).wf(),
            final(self)@ == (CircuitView { gates: old(self)@.gates.insert(id, c@), ..old(self)@ }),
    {
        let ghost before = self@.gates;
        self.components.insert(id, c);
        let ghost after = self@.gates;
        assert(after =~= before.insert(id, c@));
        proof {
            assert forall|e: ID, i: int|
                #![trigger after[e].receivers[i]]
                after.contains_key(e) && 0 <= i < after[e].receivers.len() implies crate::network::edge_has_slot(
                after,
                e,
                after[e].receivers[i],
            ) by {
                assert(e != id);
                assert(before.contains_key(e));
                assert(crate::network::edge_has_slot(before, e, before[e].receivers[i]));
            }
            assert forall|r: ID, p: int|
                #![trigger after[r].pin_sources[p]]
                after.contains_key(r) && 0 <= p < after[r].pin_sources.len()
                    && after[r].pin_sources[p] != NULL implies crate::network::slot_has_edge(
                after,
                r,
                p,
            ) by {
                assert(r != id);
                assert(before.contains_key(r));
                assert(crate::network::slot_has_edge(before, r, p));
            }
            assert forall|r: ID, p: PIN|
                after.contains_key(r) && p < after[r].pin_values.len() implies #[trigger] pin_value(
                after,
                r,
                p,
            ) == source_value(after, r, p) by {
                if r != id {
                    assert(before.contains_key(r));
                    assert(before[r].wf());
                    assert(pin_value(before, r, p) == source_value(before, r, p));
                    if before[r].pin_sources[p as int] != NULL {
                        assert(crate::network::slot_has_edge(before, r, p as int));
                    }
                } else {
                    assert(c@.wf());
                }
            }
        }
    }

    /// Adds an externally driven gate with label `label` and output
    /// `init_val`, and binds the label to it.
    pub fn add_input(&mut self, label: &str, init_val: bool) -> (id: ID)
        requires
            old(self).wf(),
            old(self)@.last_id < i32::MAX,
        ensures
            final(self).wf(),
            id == old(self)@.last_id + 1,
            final(self)@ == (CircuitView {
                last_id: id,
                gates: old(self)@.gates.insert(id, with_id(GateView::input(label@, init_val), id)),
                inputs: old(self)@.inputs.push((label@, id)),
                ..old(self)@
            }),
    {
        let mut inp = Gate::make_input(label, init_val);
        let id = self.new_id();
        inp.id = id;
        self.insert_gate(id, inp);
        self.inputs.push((String::from_str(label), id));
        assert(self@.inputs =~= old(self)@.inputs.push((label@, id)));
        return id;
    }

    pub fn get_component(&self, id: &ID) -> (r: Option<&Gate>)
        ensures
            match r {
                Some(g) => self@.gates.contains_key(*id) && g@ == self@.gates[*id],
                None => !self@.gates.contains_key(*id),
            },
    {
        return self.components.get(id);
    }

    /// The output of gate `id`, if the circuit holds it.
    pub fn state(&self, id: ID) -> (r: Option<bool>)
        ensures
            r == if self@.gates.contains_key(id) {
                Some(self@.gates[id].state)
            } else {
                None
            },
    {
        match self.components.get(&id) {
            Some(a) => Some(a.state),
            None => None,
        }
    }

    /// Tracks gate `comp_id` as an output; tells whether the circuit holds
    /// it. A gate is tracked once.
    pub fn track_output(&mut self, comp_id: ID) -> (r: bool)
        requires
            old(self).wf(),
        ensures
            final(self).wf(),
            r == old(self)@.gates.contains_key(comp_id),
            final(self)@ == (CircuitView {
                outputs: if r && !old(self)@.outputs.contains(comp_id) {
                    old(self)@.outputs.push(comp_id)
                } else {
                    old(self)@.outputs
                },
                ..old(self)@
            }),
    {
        if self.components.get(&comp_id).is_none() {
            return false;
        }
        let mut i: usize = 0;
        while i < self.outputs.len()
            invariant
                i <= self.outputs.len(),
                forall|k: int| 0 <= k < i ==> self.outputs@[k] != comp_id,
                *self == *old(self),
                self.wf(),
                self@.gates.contains_key(comp_id),
            decreases self.outputs.len() - i,
        {
            if self.outputs[i] == comp_id {
                return true;
            }
            i = i + 1;
        }
        self.outputs.push(comp_id);
        true
    }

    /// Runs a compiling pass from the seeds `inits`: the first visit of a
    /// gate forms its formula and passes it on, changed or not; a later
    /// visit passes it on where it changed. Tells whether the queue was
    /// emptied within the limit.
    fn compile_pass(&mut self, inits: &Vec<ID>) -> (done: bool)
        requires
            old(self).wf(),
        ensures
            final(self).wf(),
            final(self)@ == (CircuitView {
                gates: compile_net(old(self)@.gates, inits@, limit()),
                ..old(self)@
            }),
            done == compile_ends(old(self)@.gates, inits@, limit()),
            same_wiring(old(self)@.gates, final(self)@.gates),
    {
        let ghost net0 = self@.gates;
        let mut k: usize = 0;
        while k < inits.len()
            invariant
                k <= inits.len(),
                self.exec_queue@ == enqueue_all(Seq::empty(), inits@.take(k as int)),
                self@ == (CircuitView { queue: self.exec_queue@, ..old(self)@ }),
            decreases inits.len() - k,
        {
            proof {
                assert(inits@.take(k + 1).drop_last() =~= inits@.take(k as int));
            }
            enqueue_id(&mut self.exec_queue, inits[k]);
            k = k + 1;
        }
        proof {
            assert(inits@.take(inits.len() as int) =~= inits@);
        }
        let ghost q0 = self.exec_queue@;
        proof {
            assert forall|id: ID|
                #![trigger self.components@.contains_key(id)]
                self.components@.contains_key(id) implies self.components@[id].wf() by {
                assert(net0.contains_key(id));
            }
        }
        let slots: usize = self.last_id as usize + 1;
        let mut seen: Vec<bool> = Vec::new();
        while seen.len() < slots
            invariant
                seen@.len() <= slots,
                forall|i: int| 0 <= i < seen@.len() ==> !seen@[i],
            decreases slots - seen@.len(),
        {
            seen.push(false);
        }
        let ghost mut visited: Set<ID> = Set::empty();
        let mut iters: usize = 0;
        while self.exec_queue.len() > 0 && iters < PROPAGATION_LIMIT
            invariant
                iters <= PROPAGATION_LIMIT,
                store_wf(self.components@),
                same_wiring(net0, self@.gates),
                net_wf(net0),
                values_cached(self@.gates),
                forall|id: ID| #![trigger net0.contains_key(id)] net0.contains_key(id) ==> 0 < id <= self.last_id,
                seen@.len() == self.last_id + 1,
                forall|id: ID| #[trigger] visited.contains(id) ==> net0.contains_key(id),
                forall|id: ID| 0 < id <= self.last_id ==> seen@[id as int] == #[trigger] visited.contains(id),
                compile_run(net0, q0, Set::empty(), PROPAGATION_LIMIT as nat) == compile_run(
                    self@.gates,
                    self.exec_queue@,
                    visited,
                    (PROPAGATION_LIMIT - iters) as nat,
                ),
                self@ == (CircuitView {
                    gates: self@.gates,
                    queue: self.exec_queue@,
                    ..old(self)@
                }),
            decreases PROPAGATION_LIMIT - iters,
        {
            let ghost net1 = self@.gates;
            let ghost q1 = self.exec_queue@;
            let id = self.exec_queue.pop_front().unwrap();
            assert(self.exec_queue@ =~= q1.skip(1));
            let mut first = true;
            if self.components.contains_key(&id) {
                assert(net1.contains_key(id));
                assert(net0.contains_key(id));
                let at = id as usize;
                first = !seen[at];
                seen[at] = true;
            }
            assert(first == !visited.contains(id));
            if first {
                compile_component(id, &mut self.components, &mut self.exec_queue);
            } else {
                set_expressions(id, &mut self.components, &mut self.exec_queue);
            }
            proof {
                let kind = visit_kind(visited, id);
                lemma_act_keeps_wiring(net1, q1.skip(1), id, kind);
                lemma_same_wiring_chain(net0, net1, self@.gates);
                lemma_wiring_keeps_wf(net0, net1);
                lemma_act_keeps_cached(net1, q1.skip(1), id, kind);
                visited = visited_with(net1, visited, id);
            }
            iters += 1;
        }
        assert(compile_run(
            self@.gates,
            self.exec_queue@,
            visited,
            (PROPAGATION_LIMIT - iters) as nat,
        ) == (self@.gates, self.exec_queue@));
        let done = self.exec_queue.len() == 0;
        self.exec_queue.clear();
        assert(self@.queue =~= old(self)@.queue);
        proof {
            lemma_wiring_keeps_wf(net0, self@.gates);
            assert(self@.gates.dom() == net0.dom());
        }
        done
    }

    /// Runs a traversal from the seeds `inits`: the seeds are scheduled,
    /// then the head of the queue is visited with `runnable` until the
    /// queue is empty or the limit of visits is reached. Tells whether the
    /// queue was emptied; a queue that was not is dropped.
    pub fn graph_act(&mut self, runnable: ComponentActor, inits: &Vec<ID>) -> (done: bool)
        requires
            old(self).wf(),
        ensures
            final(self).wf(),
            final(self)@ == (CircuitView {
                gates: traverse(old(self)@.gates, inits@, runnable, PROPAGATION_LIMIT as nat),
                ..old(self)@
            }),
            done == settles(old(self)@.gates, inits@, runnable, PROPAGATION_LIMIT as nat),
            same_wiring(old(self)@.gates, final(self)@.gates),
    {
        let ghost net0 = self@.gates;
        let mut k: usize = 0;
        while k < inits.len()
            invariant
                k <= inits.len(),
                self.exec_queue@ == enqueue_all(Seq::empty(), inits@.take(k as int)),
                self@ == (CircuitView { queue: self.exec_queue@, ..old(self)@ }),
            decreases inits.len() - k,
        {
            proof {
                assert(inits@.take(k + 1).drop_last() =~= inits@.take(k as int));
            }
            enqueue_id(&mut self.exec_queue, inits[k]);
            k = k + 1;
        }
        proof {
            assert(inits@.take(inits.len() as int) =~= inits@);
        }
        let ghost q0 = self.exec_queue@;
        proof {
            assert forall|id: ID|
                #![trigger self.components@.contains_key(id)]
                self.components@.contains_key(id) implies self.components@[id].wf() by {
                assert(net0.contains_key(id));
            }
        }
        let mut iters: usize = 0;
        while self.exec_queue.len() > 0 && iters < PROPAGATION_LIMIT
            invariant
                iters <= PROPAGATION_LIMIT,
                store_wf(self.components@),
                same_wiring(net0, self@.gates),
                net_wf(net0),
                values_cached(self@.gates),
                run(net0, q0, runnable, PROPAGATION_LIMIT as nat) == run(
                    self@.gates,
                    self.exec_queue@,
                    runnable,
                    (PROPAGATION_LIMIT - iters) as nat,
                ),
                self@ == (CircuitView {
                    gates: self@.gates,
                    queue: self.exec_queue@,
                    ..old(self)@
                }),
            decreases PROPAGATION_LIMIT - iters,
        {
            let ghost net1 = self@.gates;
            let ghost q1 = self.exec_queue@;
            let id = self.exec_queue.pop_front().unwrap();
            assert(self.exec_queue@ =~= q1.skip(1));
            match runnable {
                ComponentActor::PowerOn => power_on_component(
                    id,
                    &mut self.components,
                    &mut self.exec_queue,
                ),
                ComponentActor::UpdateState => update_component_state(
                    id,
                    &mut self.components,
                    &mut self.exec_queue,
                ),
                ComponentActor::SetExpressions => set_expressions(
                    id,
                    &mut self.components,
                    &mut self.exec_queue,
                ),
                ComponentActor::Compile => compile_component(
                    id,
                    &mut self.components,
                    &mut self.exec_queue,
                ),
            }
            proof {
                lemma_act_keeps_wiring(net1, q1.skip(1), id, runnable);
                lemma_same_wiring_chain(net0, net1, self@.gates);
                lemma_wiring_keeps_wf(net0, net1);
                lemma_act_keeps_cached(net1, q1.skip(1), id, runnable);
            }
            iters += 1;
        }
        assert(run(
            self@.gates,
            self.exec_queue@,
            runnable,
            (PROPAGATION_LIMIT - iters) as nat,
        ) == (self@.gates, self.exec_queue@));
        let done = self.exec_queue.len() == 0;
        self.exec_queue.clear();
        assert(self@.queue =~= old(self)@.queue);
        proof {
            lemma_wiring_keeps_wf(net0, self@.gates);
            assert(self@.gates.dom() == net0.dom());
        }
        done
    }
}

impl BCircuit {
    proof fn lemma_store_wf(&self)
        requires
            net_wf(self@.gates),
        ensures
            store_wf(self.components@),
    {
        assert forall|id: ID|
            #![trigger self.components@.contains_key(id)]
            self.components@.contains_key(id) implies self.components@[id].wf() by {
            assert(self@.gates.contains_key(id));
        }
    }

    /// Wires gate `emitter_id` to pin `pin` of gate `receiver_id`, without
    /// propagating. On a failure nothing changes.
    pub fn do_connect(&mut self, receiver_id: ID, pin: PIN, emitter_id: ID) -> (res: Result<
        (),
        CircuitError,
    >)
        requires
            old(self).wf(),
        ensures
            final(self).wf(),
            match old(self)@.connect_fault(receiver_id, pin, emitter_id) {
                Some(err) => res is Err && res->Err_0@ == err && final(self)@ == old(self)@,
                None => res is Ok && final(self)@ == (CircuitView {
                    gates: linked(old(self)@.gates, receiver_id, pin, emitter_id),
                    ..old(self)@
                }),
            },
    {
        match self.components.get(&receiver_id) {
            None => {
                return Err(CircuitError::UnknownId(receiver_id));
            },
            Some(receiver) => {
                if !self.components.contains_key(&emitter_id) {
                    return Err(CircuitError::UnknownId(emitter_id));
                }
                if receiver_id == emitter_id {
                    return Err(CircuitError::SelfConnectionRejected(receiver_id));
                }
                if pin >= receiver.num_inputs() {
                    return Err(CircuitError::PinOutOfRange(pin, receiver.num_inputs()));
                }
                if receiver.input_pin_sources[pin] != NULL {
                    return Err(CircuitError::PinAlreadyDriven(receiver_id, pin));
                }
            },
        }
        let ghost net0 = self@.gates;
        proof {
            self.lemma_store_wf();
            lemma_link_keeps_wf(net0, receiver_id, pin, emitter_id);
            lemma_link_keeps_cached(net0, receiver_id, pin, emitter_id);
        }
        let mut emitter = self.components.remove(&emitter_id).unwrap();
        emitter.link_output_receiver(receiver_id, pin);
        let mut receiver = self.components.remove(&receiver_id).unwrap();
        let linked_ok = receiver.set_input_pin_connection(pin, &emitter);
        self.components.insert(emitter_id, emitter);
        self.components.insert(receiver_id, receiver);
        assert(self@.gates =~= linked(net0, receiver_id, pin, emitter_id));
        linked_ok
    }

    /// Cuts the wire from gate `emitter_id` to pin `pin` of gate
    /// `receiver_id`, without propagating. On a failure nothing changes.
    pub fn do_disconnect(&mut self, receiver_id: ID, pin: PIN, emitter_id: ID) -> (res: Result<
        (),
        CircuitError,
    >)
        requires
            old(self).wf(),
        ensures
            final(self).wf(),
            match old(self)@.disconnect_fault(receiver_id, pin, emitter_id) {
                Some(err) => res is Err && res->Err_0@ == err && final(self)@ == old(self)@,
                None => res is Ok && final(self)@ == (CircuitView {
                    gates: unlinked(old(self)@.gates, receiver_id, pin, emitter_id),
                    ..old(self)@
                }),
            },
    {
        if !self.components.contains_key(&receiver_id) {
            return Err(CircuitError::UnknownId(receiver_id));
        }
        match self.components.get(&emitter_id) {
            None => {
                return Err(CircuitError::UnknownId(emitter_id));
            },
            Some(emitter) => {
                if !emitter.drives(receiver_id, pin) {
                    return Err(CircuitError::EdgeAbsent(emitter_id, receiver_id, pin));
                }
            },
        }
        let ghost net0 = self@.gates;
        proof {
            self.lemma_store_wf();
            lemma_unlink_keeps_wf(net0, receiver_id, pin, emitter_id);
            lemma_unlink_keeps_cached(net0, receiver_id, pin, emitter_id);
        }
        let mut emitter = self.components.remove(&emitter_id).unwrap();
        let unlinked_ok = emitter.unlink_output_receiver(receiver_id, pin);
        let mut receiver = self.components.remove(&receiver_id).unwrap();
        let cleared_ok = receiver.clear_input_pin_connection(pin);
        self.components.insert(emitter_id, emitter);
        self.components.insert(receiver_id, receiver);
        assert(self@.gates =~= unlinked(net0, receiver_id, pin, emitter_id));
        cleared_ok
    }

    /// Wires gate `emitter_id` to pin `pin` of gate `receiver_id`: the
    /// emitter lists the forward edge, and the pin takes the output,
    /// identifier and formula of the emitter. Then the values are
    /// propagated from the receiver, and after them the formulas.
    ///
    /// Fails, and changes nothing, where one of the gates is unknown, the
    /// two are the same gate, the receiver has no such pin, or the pin is
    /// already driven. Where the values do not settle within the limit the
    /// wire is taken back and the call fails: outputs and pin values stay
    /// as far as the propagation came. After every failure each pin names
    /// the source it named before and each gate lists the forward edges it
    /// listed before. After a success every output follows its pins, where
    /// every output did before; and a settled circuit is left settled,
    /// where the logic is level driven.
    pub fn connect(&mut self, receiver_id: ID, pin: PIN, emitter_id: ID) -> (res: Result<
        (),
        CircuitError,
    >)
        requires
            old(self).wf(),
        ensures
            final(self).wf(),
            match old(self)@.connect_fault(receiver_id, pin, emitter_id) {
                Some(err) => res is Err && res->Err_0@ == err && final(self)@ == old(self)@,
                None => if old(self)@.connect_settles(receiver_id, pin, emitter_id) {
                    res is Ok && final(self)@ == old(self)@.wired(receiver_id, pin, emitter_id)
                } else {
                    &&& res is Err
                    &&& res->Err_0@ == ErrorView::PropagationLimitExceeded
                    &&& final(self)@ == old(self)@.wire_undone(receiver_id, pin, emitter_id)
                },
            },
            res is Err ==> same_wiring(old(self)@.gates, final(self)@.gates),
            res is Ok && old(self)@.follows() ==> final(self)@.follows(),
            res is Ok && old(self)@.settled() && old(self)@.level_driven() ==> final(self)@.settled(),
    {
        let res = self.do_connect(receiver_id, pin, emitter_id);
        if res.is_err() {
            return res;
        }
        let ghost net0 = old(self)@.gates;
        let ghost net1 = self@.gates;
        let mut seeds: Vec<ID> = Vec::new();
        seeds.push(receiver_id);
        assert(seeds@ =~= seq![receiver_id]);
        let done = self.graph_act(ComponentActor::UpdateState, &seeds);
        if !done {
            proof {
                lemma_link_then_unlink(net0, self@.gates, receiver_id, pin, emitter_id);
            }
            let back = self.do_disconnect(receiver_id, pin, emitter_id);
            assert(back is Ok);
            return Err(CircuitError::PropagationLimitExceeded);
        }
        self.graph_act(ComponentActor::SetExpressions, &seeds);
        proof {
            if net_follows(net0) {
                lemma_link_keeps_wf(net0, receiver_id, pin, emitter_id);
                assert(net1.dom() == net0.dom());
                assert forall|x: ID|
                    #![trigger net1.contains_key(x)]
                    net1.contains_key(x) && x != receiver_id implies net1[x].follows_pins() by {
                    assert(net0.contains_key(x));
                }
                lemma_edit_follows(net1, receiver_id);
            }
            if net_settled(net0) && level_driven(net0) {
                lemma_link_keeps_wf(net0, receiver_id, pin, emitter_id);
                assert(net1.dom() == net0.dom());
                assert forall|x: ID|
                    #![trigger net1.contains_key(x)]
                    net1.contains_key(x) && x != receiver_id implies net1[x].settled() by {
                    assert(net0.contains_key(x));
                }
                assert forall|x: ID|
                    #![trigger net1.contains_key(x)]
                    net1.contains_key(x) && net1[x].clock is None implies net1[x].eval.is_level() by {
                    assert(net0.contains_key(x));
                }
                lemma_edit_settles(net1, receiver_id);
            }
        }
        Ok(())
    }

    /// Cuts the wire from gate `emitter_id` to pin `pin` of gate
    /// `receiver_id`: the emitter no longer lists the forward edge, and the
    /// pin is low, with no source and no formula. Then the values are
    /// propagated from the receiver, and after them the formulas.
    ///
    /// Fails, and changes nothing, where one of the gates is unknown or the
    /// emitter lists no such edge. Where the values do not settle within
    /// the limit the wire is put back and the call fails: outputs and pin
    /// values stay as far as the propagation came, and the edge stands last
    /// among the forward edges of the emitter. After every failure each pin
    /// names the source it named before and each gate lists the forward
    /// edges it listed before. After a success every output follows its
    /// pins, where every output did before; and a settled circuit is left
    /// settled, where the logic is level driven.
    pub fn disconnect(&mut self, receiver_id: ID, pin: PIN, emitter_id: ID) -> (res: Result<
        (),
        CircuitError,
    >)
        requires
            old(self).wf(),
        ensures
            final(self).wf(),
            match old(self)@.disconnect_fault(receiver_id, pin, emitter_id) {
                Some(err) => res is Err && res->Err_0@ == err && final(self)@ == old(self)@,
                None => if old(self)@.disconnect_settles(receiver_id, pin, emitter_id) {
                    res is Ok && final(self)@ == old(self)@.unwired(receiver_id, pin, emitter_id)
                } else {
                    &&& res is Err
                    &&& res->Err_0@ == ErrorView::PropagationLimitExceeded
                    &&& final(self)@ == old(self)@.cut_undone(receiver_id, pin, emitter_id)
                },
            },
            res is Err ==> same_edges(old(self)@.gates, final(self)@.gates),
            res is Ok && old(self)@.follows() ==> final(self)@.follows(),
            res is Ok && old(self)@.settled() && old(self)@.level_driven() ==> final(self)@.settled(),
    {
        let res = self.do_disconnect(receiver_id, pin, emitter_id);
        if res.is_err() {
            return res;
        }
        let ghost net0 = old(self)@.gates;
        let ghost net1 = self@.gates;
        let mut seeds: Vec<ID> = Vec::new();
        seeds.push(receiver_id);
        assert(seeds@ =~= seq![receiver_id]);
        let done = self.graph_act(ComponentActor::UpdateState, &seeds);
        if !done {
            proof {
                lemma_unlink_then_link(net0, self@.gates, receiver_id, pin, emitter_id);
            }
            let back = self.do_connect(receiver_id, pin, emitter_id);
            assert(back is Ok);
            return Err(CircuitError::PropagationLimitExceeded);
        }
        self.graph_act(ComponentActor::SetExpressions, &seeds);
        proof {
            if net_follows(net0) {
                lemma_unlink_keeps_wf(net0, receiver_id, pin, emitter_id);
                assert(net1.dom() == net0.dom());
                assert forall|x: ID|
                    #![trigger net1.contains_key(x)]
                    net1.contains_key(x) && x != receiver_id implies net1[x].follows_pins() by {
                    assert(net0.contains_key(x));
                }
                lemma_edit_follows(net1, receiver_id);
            }
            if net_settled(net0) && level_driven(net0) {
                lemma_unlink_keeps_wf(net0, receiver_id, pin, emitter_id);
                assert(net1.dom() == net0.dom());
                assert forall|x: ID|
                    #![trigger net1.contains_key(x)]
                    net1.contains_key(x) && x != receiver_id implies net1[x].settled() by {
                    assert(net0.contains_key(x));
                }
                assert forall|x: ID|
                    #![trigger net1.contains_key(x)]
                    net1.contains_key(x) && net1[x].clock is None implies net1[x].eval.is_level() by {
                    assert(net0.contains_key(x));
                }
                lemma_edit_settles(net1, receiver_id);
            }
        }
        Ok(())
    }
}

impl BCircuit {
    /// Sets the output of gate `id` to `val` whether or not the circuit is
    /// powered on, writes it to the pin of each forward edge, and propagates
    /// from the consumers. Tells whether the propagation emptied its queue.
    fn drive(&mut self, id: ID, val: bool) -> (done: bool)
        requires
            old(self).wf(),
            old(self)@.gates.contains_key(id),
        ensures
            final(self).wf(),
            final(self)@ == old(self)@.driven(id, val),
            done == old(self)@.drive_settles(id, val),
            same_wiring(old(self)@.gates, final(self)@.gates),
    {
        let ghost net0 = self@.gates;
        proof {
            self.lemma_store_wf();
        }
        let mut g = self.components.remove(&id).unwrap();
        g.set_state(val);
        let recvs = copy_edges(&g.output_recvlist);
        self.components.insert(id, g);
        let ghost base = net0.insert(id, GateView { state: val, ..net0[id] });
        assert(net_of(self.components@) =~= base);
        assert(store_wf(self.components@));
        deliver_value(&mut self.components, &recvs, val);
        let seeds = targets_of(&recvs);
        proof {
            assert(base.dom() =~= net0.dom());
            assert(same_wiring(net0, base));
            lemma_deliver_keeps_wiring(base, recvs@, val, Seq::empty());
            lemma_same_wiring_chain(net0, base, self@.gates);
            lemma_wiring_keeps_wf(net0, self@.gates);
            lemma_restate_keeps_cached(net0, id, GateView { state: val, ..net0[id] }, val);
        }
        let ghost net1 = self@.gates;
        let done = self.graph_act(ComponentActor::UpdateState, &seeds);
        proof {
            lemma_same_wiring_chain(net0, net1, self@.gates);
        }
        done
    }

    /// Sets the output of gate `id` to `val`, writes it to the pin of each
    /// forward edge, and propagates the change from the consumers.
    ///
    /// Fails, and changes nothing, where the circuit is not powered on or
    /// the component is unknown. Fails with the circuit as far as it got where
    /// the propagation does not settle within the limit. Either way the
    /// wiring stays, and a gate that holds its output, as every input
    /// does, has the output `val` afterwards. After a success every output
    /// follows its pins, where every output did before and `val` is an
    /// output that the logic of the component can give for its pins, as it
    /// is for every gate that holds its output. A success leaves a settled
    /// circuit settled, where the logic is level driven and the component itself
    /// is settled with its new output.
    pub fn set_component_state(&mut self, id: ID, val: bool) -> (res: Result<(), CircuitError>)
        requires
            old(self).wf(),
        ensures
            final(self).wf(),
            !old(self)@.active ==> res is Err && res->Err_0@ == ErrorView::NotPoweredOn && final(self)@ == old(self)@,
            old(self)@.active && !old(self)@.gates.contains_key(id) ==> res is Err && res->Err_0@
                == ErrorView::UnknownId(id) && final(self)@ == old(self)@,
            old(self)@.active && old(self)@.gates.contains_key(id) ==> {
                &&& final(self)@ == old(self)@.driven(id, val)
                &&& if old(self)@.drive_settles(id, val) {
                    res is Ok
                } else {
                    res is Err && res->Err_0@ == ErrorView::PropagationLimitExceeded
                }
            },
            res is Ok && old(self)@.settled() && old(self)@.level_driven() && (GateView {
                state: val,
                ..old(self)@.gates[id]
            }).settled() ==> final(self)@.settled(),
            same_wiring(old(self)@.gates, final(self)@.gates),
            old(self)@.active && old(self)@.gates.contains_key(id) && old(self)@.gates[id].holds()
                ==> final(self)@.gates[id].state == val,
            res is Ok && old(self)@.follows() && (GateView {
                state: val,
                ..old(self)@.gates[id]
            }).follows_pins() ==> final(self)@.follows(),
    {
        if !self.active {
            return Err(CircuitError::NotPoweredOn);
        }
        if !self.components.contains_key(&id) {
            return Err(CircuitError::UnknownId(id));
        }
        let done = self.drive(id, val);
        proof {
            let net0 = old(self)@.gates;
            lemma_forced_frame(net0, id, val);
            lemma_value_run_frame(
                forced(net0, id, val),
                enqueue_all(Seq::empty(), targets(net0[id].receivers)),
                ComponentActor::UpdateState,
                limit(),
            );
            assert(forced(net0, id, val).contains_key(id));
            if done && net_follows(net0) && (GateView { state: val, ..net0[id] }).follows_pins() {
                lemma_drive_follows(net0, id, val);
            }
            if done && old(self)@.settled() && old(self)@.level_driven() && (GateView {
                state: val,
                ..old(self)@.gates[id]
            }).settled() {
                lemma_drive_settles(old(self)@.gates, id, val);
            }
        }
        if done {
            Ok(())
        } else {
            Err(CircuitError::PropagationLimitExceeded)
        }
    }

    /// Toggles the clock source and toggles it back; each toggle is
    /// propagated in full. Does nothing where no clock is configured.
    ///
    /// Fails, and changes nothing, where the circuit is not powered on or
    /// the clock source is not a gate of the circuit. Fails after both
    /// toggles where one of the two propagations does not settle within the
    /// limit.
    pub fn pulse_clock(&mut self) -> (res: Result<(), CircuitError>)
        requires
            old(self).wf(),
        ensures
            final(self).wf(),
            match old(self)@.clk {
                None => res is Ok && final(self)@ == old(self)@,
                Some(clk) => if !old(self)@.gates.contains_key(clk) {
                    res is Err && res->Err_0@ == ErrorView::UnknownId(clk) && final(self)@ == old(self)@
                } else if !old(self)@.active {
                    res is Err && res->Err_0@ == ErrorView::NotPoweredOn && final(self)@ == old(self)@
                } else {
                    &&& final(self)@ == old(self)@.pulsed(clk)
                    &&& if old(self)@.pulse_settles(clk) {
                        res is Ok
                    } else {
                        res is Err && res->Err_0@ == ErrorView::PropagationLimitExceeded
                    }
                },
            },
    {
        match self.clk {
            None => Ok(()),
            Some(clk) => {
                match self.state(clk) {
                    None => Err(CircuitError::UnknownId(clk)),
                    Some(curr_state) => {
                        if !self.active {
                            return Err(CircuitError::NotPoweredOn);
                        }
                        let up = self.drive(clk, !curr_state);
                        let down = self.drive(clk, curr_state);
                        if up && down {
                            Ok(())
                        } else {
                            Err(CircuitError::PropagationLimitExceeded)
                        }
                    },
                }
            },
        }
    }

    /// The drivers of the circuit: the inputs and the sequential gates but
    /// for the clock source, in ascending order of identifier.
    pub fn all_inputs_and_states(&self) -> (q: Vec<ID>)
        requires
            self.wf(),
        ensures
            q@ == self@.drivers(),
    {
        let mut q: Vec<ID> = Vec::new();
        let mut id: ID = 0;
        while id < self.last_id
            invariant
                0 <= id <= self.last_id,
                q@ == self@.drivers_upto(id as int),
            decreases self.last_id - id,
        {
            id = id + 1;
            match self.components.get(&id) {
                Some(c) => {
                    let is_clk = match self.clk {
                        Some(k) => k == id,
                        None => false,
                    };
                    if c.has_independent_state() && !is_clk {
                        q.push(id);
                    }
                },
                None => {},
            }
        }
        q
    }

    /// Propagates the values from the drivers, stopping at unchanged gates.
    /// Fails with the circuit as far as it got where the propagation does
    /// not settle within the limit.
    pub fn refresh(&mut self) -> (res: Result<(), CircuitError>)
        requires
            old(self).wf(),
        ensures
            final(self).wf(),
            final(self)@ == old(self)@.refreshed(),
            if settles(
                old(self)@.gates,
                old(self)@.drivers(),
                ComponentActor::UpdateState,
                limit(),
            ) {
                res is Ok
            } else {
                res is Err && res->Err_0@ == ErrorView::PropagationLimitExceeded
            },
    {
        let seeds = self.all_inputs_and_states();
        if self.graph_act(ComponentActor::UpdateState, &seeds) {
            Ok(())
        } else {
            Err(CircuitError::PropagationLimitExceeded)
        }
    }

    /// Compiles the formulas from the drivers: each gate visited forms its
    /// formula anew from the formulas on its pins and writes it to every
    /// pin that it drives, at its first visit whether it changed or not,
    /// and later where it changed. Outputs, pin values, sources and forward
    /// edges stay as they are.
    ///
    /// Where the pass empties its queue within the limit, every gate that
    /// the drivers reach along forward edges has the formula of its inputs,
    /// and the pins that it drives hold that formula.
    pub fn compile(&mut self)
        requires
            old(self).wf(),
        ensures
            final(self).wf(),
            final(self)@ == old(self)@.compiled(),
            same_wiring(old(self)@.gates, final(self)@.gates),
            same_levels(old(self)@.gates, final(self)@.gates),
            old(self)@.compile_settles() ==> forall|id: ID, n: nat| #[trigger]
                reached_in(old(self)@.gates, old(self)@.drivers(), id, n) ==> formula_current(
                    final(self)@.gates,
                    id,
                ),
    {
        let seeds = self.all_inputs_and_states();
        let ghost net0 = self@.gates;
        self.compile_pass(&seeds);
        proof {
            lemma_compile_run_frame(
                net0,
                enqueue_all(Seq::empty(), seeds@),
                Set::empty(),
                limit(),
            );
            if old(self)@.compile_settles() {
                assert forall|id: ID, n: nat| #[trigger]
                    reached_in(net0, seeds@, id, n) implies formula_current(self@.gates, id) by {
                    lemma_compile_current(net0, seeds@, limit(), id, n);
                }
            }
        }
    }

    /// Powers the circuit on: the formulas and then the values are
    /// propagated from the drivers, the values through every gate reached,
    /// changed or not.
    pub fn power_on(&mut self)
        requires
            old(self).wf(),
        ensures
            final(self).wf(),
            final(self)@ == old(self)@.powered(),
    {
        let seeds = self.all_inputs_and_states();
        self.compile_pass(&seeds);
        self.graph_act(ComponentActor::PowerOn, &seeds);
        self.active = true;
    }

    /// Gives gate `id` the label `lab` and propagates the formulas from it.
    /// Fails, and changes nothing, where the component is unknown.
    pub fn set_component_label(&mut self, id: ID, lab: &str) -> (res: Result<(), CircuitError>)
        requires
            old(self).wf(),
        ensures
            final(self).wf(),
            if old(self)@.gates.contains_key(id) {
                res is Ok && final(self)@ == old(self)@.relabelled(id, lab@)
            } else {
                res is Err && res->Err_0@ == ErrorView::UnknownId(id) && final(self)@ == old(self)@
            },
    {
        if !self.components.contains_key(&id) {
            return Err(CircuitError::UnknownId(id));
        }
        let ghost net0 = self@.gates;
        proof {
            self.lemma_store_wf();
        }
        let mut g = self.components.remove(&id).unwrap();
        g.label = String::from_str(lab);
        self.components.insert(id, g);
        let ghost net1 = net0.insert(id, GateView { label: lab@, ..net0[id] });
        assert(self@.gates =~= net1);
        proof {
            lemma_relabel_keeps_wf(net0, id, lab@);
        }
        let mut seeds: Vec<ID> = Vec::new();
        seeds.push(id);
        assert(seeds@ =~= seq![id]);
        self.graph_act(ComponentActor::SetExpressions, &seeds);
        Ok(())
    }
}

impl BCircuit {
    /// Cuts every wire into gate `id`.
    fn sever_inputs(&mut self, id: ID)
        requires
            old(self).wf(),
            old(self)@.gates.contains_key(id),
        ensures
            final(self).wf(),
            final(self)@ == (CircuitView {
                gates: cut_inputs(old(self)@.gates, id, old(self)@.gates[id].num_pins()),
                ..old(self)@
            }),
            final(self)@.gates.dom() == old(self)@.gates.dom(),
            final(self)@.gates[id].receivers == old(self)@.gates[id].receivers,
            final(self)@.gates[id].pin_sources.len() == old(self)@.gates[id].pin_sources.len(),
            forall|k: int|
                0 <= k < final(self)@.gates[id].pin_sources.len() ==> final(self)@.gates[id].pin_sources[k] == NULL,
    {
        let ghost net0 = self@.gates;
        let n = match self.components.get(&id) {
            Some(g) => g.num_inputs(),
            None => 0,
        };
        let mut k: usize = 0;
        while k < n
            invariant
                k <= n,
                n == net0[id].num_pins(),
                net_wf(net0),
                self.wf(),
                self@ == (CircuitView { gates: cut_inputs(net0, id, k as nat), ..old(self)@ }),
                self@.gates.dom() == net0.dom(),
                self@.gates.contains_key(id),
                self@.gates[id].receivers == net0[id].receivers,
                self@.gates[id].pin_sources.len() == net0[id].pin_sources.len(),
                forall|j: int| 0 <= j < k ==> self@.gates[id].pin_sources[j] == NULL,
            decreases n - k,
        {
            let ghost prev = self@.gates;
            let src = match self.components.get(&id) {
                Some(g) => g.input_pin_sources[k],
                None => NULL,
            };
            if src != NULL {
                proof {
                    assert(prev[id].pin_sources[k as int] != NULL);
                    assert(crate::network::slot_has_edge(prev, id, k as int));
                    lemma_unlink_keeps_wf(prev, id, k, src);
                }
                let cut = self.do_disconnect(id, k, src);
                assert(cut is Ok);
            }
            k = k + 1;
        }
    }

    /// Cuts every wire out of gate `id`; `recvs` are its forward edges.
    fn sever_outputs(&mut self, id: ID, recvs: &Vec<(ID, PIN)>)
        requires
            old(self).wf(),
            old(self)@.gates.contains_key(id),
            recvs@ == old(self)@.gates[id].receivers,
        ensures
            final(self).wf(),
            final(self)@ == (CircuitView {
                gates: cut_outputs(old(self)@.gates, id, recvs@),
                ..old(self)@
            }),
            final(self)@.gates.dom() == old(self)@.gates.dom(),
            final(self)@.gates[id].receivers.len() == 0,
            final(self)@.gates[id].pin_sources == old(self)@.gates[id].pin_sources,
    {
        let ghost net0 = self@.gates;
        let mut i: usize = 0;
        while i < recvs.len()
            invariant
                i <= recvs.len(),
                self.wf(),
                self@ == (CircuitView {
                    gates: cut_outputs(net0, id, recvs@.take(i as int)),
                    ..old(self)@
                }),
                self@.gates.dom() == net0.dom(),
                self@.gates.contains_key(id),
                self@.gates[id].receivers == recvs@.skip(i as int),
                self@.gates[id].pin_sources == net0[id].pin_sources,
            decreases recvs.len() - i,
        {
            let ghost prev = self@.gates;
            let edge = recvs[i];
            proof {
                assert(recvs@.take(i + 1).drop_last() =~= recvs@.take(i as int));
                let left = recvs@.skip(i as int);
                assert(left[0] == edge);
                assert(prev[id].receivers.contains(edge));
                lemma_unlink_keeps_wf(prev, edge.0, edge.1, id);
                left.index_of_first_ensures(edge);
                assert(left.remove_value(edge) =~= recvs@.skip(i + 1));
            }
            let cut = self.do_disconnect(edge.0, edge.1, id);
            assert(cut is Ok);
            i = i + 1;
        }
        proof {
            assert(recvs@.take(recvs.len() as int) =~= recvs@);
        }
    }

    /// Stops tracking gate `id` as an output.
    fn untrack(&mut self, id: ID)
        requires
            old(self)@.outputs.no_duplicates(),
        ensures
            final(self)@ == (CircuitView {
                outputs: old(self)@.outputs.remove_value(id),
                ..old(self)@
            }),
            final(self)@.outputs.no_duplicates(),
            !final(self)@.outputs.contains(id),
            forall|x: ID| final(self)@.outputs.contains(x) ==> old(self)@.outputs.contains(x),
    {
        let mut i: usize = 0;
        while i < self.outputs.len()
            invariant
                i <= self.outputs.len(),
                forall|k: int| 0 <= k < i ==> self.outputs@[k] != id,
                *self == *old(self),
                self.outputs@.no_duplicates(),
            decreases self.outputs.len() - i,
        {
            if self.outputs[i] == id {
                proof {
                    self.outputs@.index_of_first_ensures(id);
                    lemma_remove_value_unique(self.outputs@, id);
                }
                self.outputs.remove(i);
                return ;
            }
            i = i + 1;
        }
        proof {
            self.outputs@.index_of_first_ensures(id);
        }
    }

    /// Takes gate `id` out of the circuit: every wire into it and out of it
    /// is cut, which leaves the pins of its consumers low and driven by
    /// nothing; the component is deleted and no longer tracked as an output; and
    /// the values are propagated once from its former consumers.
    ///
    /// Fails, and changes nothing, where the component is unknown. Fails with
    /// the component removed where the propagation does not settle within the
    /// limit.
    pub fn remove_component(&mut self, id: ID) -> (res: Result<(), CircuitError>)
        requires
            old(self).wf(),
        ensures
            final(self).wf(),
            if !old(self)@.gates.contains_key(id) {
                res is Err && res->Err_0@ == ErrorView::UnknownId(id) && final(self)@ == old(self)@
            } else {
                &&& final(self)@ == old(self)@.removed(id)
                &&& !final(self)@.gates.contains_key(id)
                &&& if settles(
                    isolated(old(self)@.gates, id),
                    targets(old(self)@.gates[id].receivers),
                    ComponentActor::UpdateState,
                    limit(),
                ) {
                    res is Ok
                } else {
                    res is Err && res->Err_0@ == ErrorView::RemovalUnsettled(id)
                }
            },
    {
        let orlist = match self.components.get(&id) {
            None => {
                return Err(CircuitError::UnknownId(id));
            },
            Some(g) => copy_edges(&g.output_recvlist),
        };
        self.sever_inputs(id);
        self.sever_outputs(id, &orlist);
        let ghost cut = self@.gates;
        proof {
            lemma_remove_isolated_keeps_wf(cut, id);
            lemma_remove_isolated_keeps_cached(cut, id);
        }
        self.components.remove(&id);
        assert(self@.gates =~= cut.remove(id));
        self.untrack(id);
        assert(self.wf()) by {
            assert forall|i: int| 0 <= i < self@.outputs.len() implies self@.gates.contains_key(
                #[trigger] self@.outputs[i],
            ) by {
                assert(self@.outputs.contains(self@.outputs[i]));
                assert(old(self)@.outputs.contains(self@.outputs[i]));
            }
        }
        let seeds = targets_of(&orlist);
        let done = self.graph_act(ComponentActor::UpdateState, &seeds);
        if done {
            Ok(())
        } else {
            Err(CircuitError::RemovalUnsettled(id))
        }
    }
}

/// What a truth table is made from: the drivers in the order of their
/// columns, the tracked outputs in the order of theirs, and the clock
/// source.
pub struct TruthPlan {
    pub drivers: Seq<ID>,
    pub outs: Seq<ID>,
    pub clk: Option<ID>,
}

/// The character of a bit.
pub open spec fn bit_char(b: bool) -> char {
    if b {
        '1'
    } else {
        '0'
    }
}

/// The characters of a list of bits.
pub open spec fn bit_chars(bits: Seq<bool>) -> Seq<char> {
    bits.map_values(|b: bool| bit_char(b))
}

/// The net after the output of each of `ids` was set to its bit of `bits`
/// and written to the pin of each of its forward edges.
pub open spec fn force_all(net: Net, ids: Seq<ID>, bits: Seq<bool>) -> Net
    decreases ids.len(),
{
    if ids.len() == 0 {
        net
    } else {
        forced(force_all(net, ids.drop_last(), bits), ids.last(), bits[ids.len() - 1])
    }
}

/// The consumers of each of `ids` in turn.
pub open spec fn consumers(net: Net, ids: Seq<ID>) -> Seq<ID>
    decreases ids.len(),
{
    if ids.len() == 0 {
        Seq::empty()
    } else {
        consumers(net, ids.drop_last()) + targets(net[ids.last()].receivers)
    }
}

/// The outputs of the gates `ids`.
pub open spec fn states_of(net: Net, ids: Seq<ID>) -> Seq<bool> {
    ids.map_values(|id: ID| net[id].state)
}

/// How many of the first gates of `s` have a name that stands before or
/// with `name`, counted up to the first that does not.
pub open spec fn leading_leq(key: spec_fn(ID) -> Seq<char>, s: Seq<ID>, name: Seq<char>) -> nat
    decreases s.len(),
{
    if s.len() == 0 || !lex_leq(key(s[0]), name) {
        0
    } else {
        1 + leading_leq(key, s.skip(1), name)
    }
}

/// The gates `ids` in the order of their names; gates of one name stay in
/// the order in which `ids` lists them.
pub open spec fn ordered_by(key: spec_fn(ID) -> Seq<char>, ids: Seq<ID>) -> Seq<ID>
    decreases ids.len(),
{
    if ids.len() == 0 {
        Seq::empty()
    } else {
        let prev = ordered_by(key, ids.drop_last());
        prev.insert(leading_leq(key, prev, key(ids.last())) as int, ids.last())
    }
}

impl TruthPlan {
    /// The net after assignment `n` was played on `net`: each driver takes
    /// its bit of `n`, the most significant bit going to the driver of the
    /// first column; the values are propagated once from the consumers of
    /// the drivers; and the clock, if the circuit holds its source, is
    /// pulsed once.
    pub open spec fn row_net(self, net: Net, n: nat) -> Net {
        let k = self.drivers.len();
        let net1 = force_all(net, self.drivers, bits_msb(n, k));
        let net2 = traverse(
            net1,
            consumers(net, self.drivers),
            ComponentActor::UpdateState,
            limit(),
        );
        match self.clk {
            Some(c) => if net2.contains_key(c) {
                pulse_net(net2, c)
            } else {
                net2
            },
            None => net2,
        }
    }

    /// The row of assignment `n`: the binary digits of `n`, the most
    /// significant in the first column, and then the output of each tracked
    /// gate in `after`, the net that the assignment leaves.
    pub open spec fn row_cells(self, n: nat, after: Net) -> Seq<char> {
        bit_chars(bits_msb(n, self.drivers.len())) + bit_chars(states_of(after, self.outs))
    }

    /// The first `n` rows of the table made from `net`, and the net that
    /// they leave.
    pub open spec fn rows(self, net: Net, n: nat) -> (Seq<Seq<char>>, Net)
        decreases n,
    {
        if n == 0 {
            (Seq::empty(), net)
        } else {
            let prev = self.rows(net, (n - 1) as nat);
            let after = self.row_net(prev.1, (n - 1) as nat);
            (prev.0.push(self.row_cells((n - 1) as nat, after)), after)
        }
    }
}

/// The net after the output of gate `clk` was toggled and toggled back,
/// each toggle propagated from its consumers.
pub open spec fn pulse_net(net: Net, clk: ID) -> Net {
    let cur = net[clk].state;
    let up = traverse(
        forced(net, clk, !cur),
        targets(net[clk].receivers),
        ComponentActor::UpdateState,
        limit(),
    );
    traverse(
        forced(up, clk, cur),
        targets(up[clk].receivers),
        ComponentActor::UpdateState,
        limit(),
    )
}

impl CircuitView {
    /// The formula of a gate.
    pub open spec fn formula_of(self) -> spec_fn(ID) -> Seq<char> {
        |id: ID| self.gates[id].state_expr
    }

    /// The label of a gate.
    pub open spec fn label_of(self) -> spec_fn(ID) -> Seq<char> {
        |id: ID| self.gates[id].label
    }

    /// The drivers in the order of their formulas, which is the order of
    /// their columns in the truth table.
    pub open spec fn table_drivers(self) -> Seq<ID> {
        ordered_by(self.formula_of(), self.drivers())
    }

    /// The tracked outputs in the order of their labels, which is the order
    /// of their columns in the truth table.
    pub open spec fn table_outputs(self) -> Seq<ID> {
        ordered_by(self.label_of(), self.outputs)
    }

    /// The columns of the truth table: the formulas of the drivers in
    /// order, then the labels of the tracked outputs in order.
    pub open spec fn truth_cols(self) -> Seq<Seq<char>> {
        self.table_drivers().map_values(self.formula_of()) + self.table_outputs().map_values(
            self.label_of(),
        )
    }

    /// The plan of the truth table.
    pub open spec fn truth_plan(self) -> TruthPlan {
        TruthPlan { drivers: self.table_drivers(), outs: self.table_outputs(), clk: self.clk }
    }
}

/// A sequence with one element put in holds that element and what it
/// held, and lists nothing twice where it listed nothing twice and the
/// element is new.
pub proof fn lemma_insert_holds(s: Seq<ID>, p: int, x: ID)
    requires
        0 <= p <= s.len(),
    ensures
        forall|y: ID|
            #![trigger s.insert(p, x).contains(y)]
            s.insert(p, x).contains(y) <==> y == x || s.contains(y),
        s.no_duplicates() && !s.contains(x) ==> s.insert(p, x).no_duplicates(),
{
    let all = s.insert(p, x);
    assert forall|y: ID| #![trigger all.contains(y)] all.contains(y) implies y == x || s.contains(
        y,
    ) by {
        let i = choose|i: int| 0 <= i < all.len() && all[i] == y;
        if i < p {
            assert(s[i] == y);
        } else if i > p {
            assert(s[i - 1] == y);
        }
    }
    assert forall|y: ID| y == x || s.contains(y) implies #[trigger] all.contains(y) by {
        if y == x {
            assert(all[p] == y);
        } else {
            let i = choose|i: int| 0 <= i < s.len() && s[i] == y;
            if i < p {
                assert(all[i] == y);
            } else {
                assert(all[i + 1] == y);
            }
        }
    }
    if s.no_duplicates() && !s.contains(x) {
        assert forall|i: int, j: int| 0 <= i < all.len() && 0 <= j < all.len() && i != j implies all[i]
            != all[j] by {
            let i0 = if i < p { i } else { i - 1 };
            let j0 = if j < p { j } else { j - 1 };
            if i != p {
                assert(all[i] == s[i0]);
                assert(s.contains(s[i0]));
            }
            if j != p {
                assert(all[j] == s[j0]);
                assert(s.contains(s[j0]));
            }
        }
    }
}

/// A sequence holds its last element and what stands before it.
pub proof fn lemma_last_holds(ids: Seq<ID>)
    requires
        ids.len() > 0,
    ensures
        forall|x: ID|
            #![trigger ids.contains(x)]
            ids.contains(x) <==> x == ids.last() || ids.drop_last().contains(x),
        ids.no_duplicates() ==> ids.drop_last().no_duplicates() && !ids.drop_last().contains(
            ids.last(),
        ),
{
    let head = ids.drop_last();
    assert forall|x: ID| #![trigger ids.contains(x)] ids.contains(x) implies x == ids.last()
        || head.contains(x) by {
        let j = choose|j: int| 0 <= j < ids.len() && ids[j] == x;
        if j < ids.len() - 1 {
            assert(head[j] == x);
        }
    }
    assert forall|x: ID| x == ids.last() || head.contains(x) implies #[trigger] ids.contains(x) by {
        if head.contains(x) {
            let j = choose|j: int| 0 <= j < head.len() && head[j] == x;
            assert(ids[j] == x);
        } else {
            assert(ids[ids.len() - 1] == x);
        }
    }
    if ids.no_duplicates() && head.contains(ids.last()) {
        let j = choose|j: int| 0 <= j < head.len() && head[j] == ids.last();
        assert(ids[j] == ids[ids.len() - 1]);
    }
}

/// The count of leading names stops within the list.
pub proof fn lemma_leading_bound(key: spec_fn(ID) -> Seq<char>, s: Seq<ID>, name: Seq<char>)
    ensures
        leading_leq(key, s, name) <= s.len(),
    decreases s.len(),
{
    if s.len() > 0 && lex_leq(key(s[0]), name) {
        lemma_leading_bound(key, s.skip(1), name);
    }
}

/// Ordering by name lists the same gates, as many as before.
pub proof fn lemma_ordered_by_same(key: spec_fn(ID) -> Seq<char>, ids: Seq<ID>)
    ensures
        ordered_by(key, ids).len() == ids.len(),
        forall|x: ID| #![trigger ordered_by(key, ids).contains(x)] ordered_by(key, ids).contains(x) <==> ids.contains(x),
        ids.no_duplicates() ==> ordered_by(key, ids).no_duplicates(),
    decreases ids.len(),
{
    let all = ordered_by(key, ids);
    if ids.len() > 0 {
        let head = ids.drop_last();
        let id = ids.last();
        lemma_ordered_by_same(key, head);
        let prev = ordered_by(key, head);
        lemma_leading_bound(key, prev, key(id));
        let p = leading_leq(key, prev, key(id)) as int;
        assert(all == prev.insert(p, id));
        lemma_insert_holds(prev, p, id);
        lemma_last_holds(ids);
        assert forall|x: ID| #![trigger all.contains(x)] all.contains(x) <==> ids.contains(x) by {
            assert(all.contains(x) <==> x == id || prev.contains(x));
            assert(prev.contains(x) <==> head.contains(x));
            assert(ids.contains(x) <==> x == id || head.contains(x));
        }
        if ids.no_duplicates() {
            assert(!prev.contains(id));
        }
    } else {
        assert(all =~= ids);
    }
}

/// The count of leading names stops within the list, at the first name
/// that stands after `name`.
pub proof fn lemma_leading_leq(key: spec_fn(ID) -> Seq<char>, s: Seq<ID>, name: Seq<char>)
    ensures
        leading_leq(key, s, name) <= s.len(),
        forall|i: int| 0 <= i < leading_leq(key, s, name) ==> lex_leq(key(#[trigger] s[i]), name),
        leading_leq(key, s, name) < s.len() ==> !lex_leq(
            key(s[leading_leq(key, s, name) as int]),
            name,
        ),
    decreases s.len(),
{
    if s.len() == 0 || !lex_leq(key(s[0]), name) {
    } else {
        let rest = s.skip(1);
        lemma_leading_leq(key, rest, name);
        let p = leading_leq(key, rest, name);
        assert forall|i: int| 0 <= i < p + 1 implies lex_leq(key(#[trigger] s[i]), name) by {
            if i > 0 {
                assert(rest[i - 1] == s[i]);
            }
        }
        if p + 1 < s.len() {
            assert(rest[p as int] == s[p as int + 1]);
        }
    }
}

/// Gates ordered by name stand in the order of their names.
pub proof fn lemma_ordered_by_sorted(key: spec_fn(ID) -> Seq<char>, ids: Seq<ID>)
    ensures
        forall|i: int, j: int|
            0 <= i < j < ordered_by(key, ids).len() ==> lex_leq(
                key(ordered_by(key, ids)[i]),
                key(ordered_by(key, ids)[j]),
            ),
    decreases ids.len(),
{
    let all = ordered_by(key, ids);
    if ids.len() > 0 {
        let head = ids.drop_last();
        let id = ids.last();
        lemma_ordered_by_sorted(key, head);
        let prev = ordered_by(key, head);
        lemma_leading_leq(key, prev, key(id));
        let p = leading_leq(key, prev, key(id)) as int;
        assert(all == prev.insert(p, id));
        assert forall|i: int, j: int| 0 <= i < j < all.len() implies lex_leq(
            key(all[i]),
            key(all[j]),
        ) by {
            if i < p && j < p {
                assert(all[i] == prev[i] && all[j] == prev[j]);
            } else if i < p && j == p {
                assert(all[i] == prev[i]);
            } else if i < p && j > p {
                assert(all[i] == prev[i] && all[j] == prev[j - 1]);
            } else if i == p {
                assert(all[j] == prev[j - 1]);
                crate::utils::lemma_lex_total(key(prev[p]), key(id));
                if j - 1 > p {
                    crate::utils::lemma_lex_transitive(key(id), key(prev[p]), key(prev[j - 1]));
                }
            } else {
                assert(all[i] == prev[i - 1] && all[j] == prev[j - 1]);
            }
        }
    }
}

/// Names that agree on the gates of a list give the list the same order.
pub proof fn lemma_ordered_by_agree(
    key1: spec_fn(ID) -> Seq<char>,
    key2: spec_fn(ID) -> Seq<char>,
    ids: Seq<ID>,
)
    requires
        forall|i: int| 0 <= i < ids.len() ==> key1(#[trigger] ids[i]) == key2(ids[i]),
    ensures
        ordered_by(key1, ids) == ordered_by(key2, ids),
    decreases ids.len(),
{
    if ids.len() > 0 {
        let head = ids.drop_last();
        let id = ids.last();
        assert forall|i: int| 0 <= i < head.len() implies key1(#[trigger] head[i]) == key2(
            head[i],
        ) by {
            assert(head[i] == ids[i]);
        }
        lemma_ordered_by_agree(key1, key2, head);
        let prev = ordered_by(key1, head);
        lemma_ordered_by_same(key1, head);
        assert(key1(ids[ids.len() - 1]) == key2(ids[ids.len() - 1]));
        assert forall|i: int| 0 <= i < prev.len() implies key1(#[trigger] prev[i]) == key2(
            prev[i],
        ) by {
            assert(prev.contains(prev[i]));
            assert(head.contains(prev[i]));
            let j = choose|j: int| 0 <= j < head.len() && head[j] == prev[i];
            assert(key1(head[j]) == key2(head[j]));
        }
        lemma_leading_agree(key1, key2, prev, key1(id));
    }
}

/// Names that agree on the gates of a list give the same count of leading
/// names.
pub proof fn lemma_leading_agree(
    key1: spec_fn(ID) -> Seq<char>,
    key2: spec_fn(ID) -> Seq<char>,
    s: Seq<ID>,
    name: Seq<char>,
)
    requires
        forall|i: int| 0 <= i < s.len() ==> key1(#[trigger] s[i]) == key2(s[i]),
    ensures
        leading_leq(key1, s, name) == leading_leq(key2, s, name),
    decreases s.len(),
{
    if s.len() > 0 {
        assert(key1(s[0]) == key2(s[0]));
        let rest = s.skip(1);
        assert forall|i: int| 0 <= i < rest.len() implies key1(#[trigger] rest[i]) == key2(
            rest[i],
        ) by {
            assert(rest[i] == s[i + 1]);
        }
        lemma_leading_agree(key1, key2, rest, name);
    }
}

/// The table has as many driver columns as the circuit has drivers, and the
/// gates of its columns are gates of the circuit.
pub proof fn lemma_table_gates(c: CircuitView)
    requires
        c.wf(),
    ensures
        c.table_drivers().len() == c.drivers().len(),
        c.table_outputs().len() == c.outputs.len(),
        forall|i: int|
            0 <= i < c.table_drivers().len() ==> c.gates.contains_key(#[trigger] c.table_drivers()[i]),
        forall|i: int|
            0 <= i < c.table_outputs().len() ==> c.gates.contains_key(#[trigger] c.table_outputs()[i]),
{
    lemma_drivers_exist(c, c.last_id as int);
    lemma_ordered_by_same(c.formula_of(), c.drivers());
    lemma_ordered_by_same(c.label_of(), c.outputs);
    assert forall|i: int| 0 <= i < c.table_drivers().len() implies c.gates.contains_key(
        #[trigger] c.table_drivers()[i],
    ) by {
        let x = c.table_drivers()[i];
        assert(c.table_drivers().contains(x));
        assert(c.drivers().contains(x));
        let j = choose|j: int| 0 <= j < c.drivers().len() && c.drivers()[j] == x;
        assert(c.gates.contains_key(c.drivers()[j]));
    }
    assert forall|i: int| 0 <= i < c.table_outputs().len() implies c.gates.contains_key(
        #[trigger] c.table_outputs()[i],
    ) by {
        let x = c.table_outputs()[i];
        assert(c.table_outputs().contains(x));
        assert(c.outputs.contains(x));
        let j = choose|j: int| 0 <= j < c.outputs.len() && c.outputs[j] == x;
        assert(c.gates.contains_key(c.outputs[j]));
    }
}

/// The rows of a truth table read as binary numbers: row `n` holds, in the
/// columns of the drivers, the binary digits of `n` with the most
/// significant first, and in every column a `0` or a `1`.
pub proof fn lemma_rows_read(plan: TruthPlan, net: Net, total: nat, n: int, j: int)
    requires
        0 <= n < total,
        0 <= j < plan.drivers.len() + plan.outs.len(),
    ensures
        plan.rows(net, total).0.len() == total,
        plan.rows(net, total).0[n].len() == plan.drivers.len() + plan.outs.len(),
        plan.rows(net, total).0[n][j] == '0' || plan.rows(net, total).0[n][j] == '1',
        j < plan.drivers.len() ==> (plan.rows(net, total).0[n][j] == '1' <==> crate::table::bit_of(
            n as nat,
            (plan.drivers.len() - 1 - j) as nat,
        )),
    decreases total,
{
    let k = plan.drivers.len();
    if total - 1 > n {
        lemma_rows_read(plan, net, (total - 1) as nat, n, j);
        lemma_rows_len(plan, net, (total - 1) as nat);
    } else {
        lemma_rows_len(plan, net, (total - 1) as nat);
        let prev = plan.rows(net, (total - 1) as nat);
        let after = plan.row_net(prev.1, (total - 1) as nat);
        let row = plan.row_cells(n as nat, after);
        assert(plan.rows(net, total).0[n] == row);
    }
}

/// Every row of a table has a cell for each driver and each output.
pub proof fn lemma_rows_width(plan: TruthPlan, net: Net, total: nat, n: int)
    requires
        0 <= n < total,
    ensures
        plan.rows(net, total).0[n].len() == plan.drivers.len() + plan.outs.len(),
    decreases total,
{
    lemma_rows_len(plan, net, (total - 1) as nat);
    if total - 1 > n {
        lemma_rows_width(plan, net, (total - 1) as nat, n);
    }
}

/// A table of `total` rows has `total` rows.
pub proof fn lemma_rows_len(plan: TruthPlan, net: Net, total: nat)
    ensures
        plan.rows(net, total).0.len() == total,
    decreases total,
{
    if total > 0 {
        lemma_rows_len(plan, net, (total - 1) as nat);
    }
}

impl BCircuit {
    /// Sets the output of gate `id` to `val` and writes it to the pin of
    /// each forward edge, without evaluating anything.
    fn force(&mut self, id: ID, val: bool)
        requires
            old(self).wf(),
            old(self)@.gates.contains_key(id),
        ensures
            final(self).wf(),
            final(self)@ == (CircuitView { gates: forced(old(self)@.gates, id, val), ..old(self)@ }),
            same_wiring(old(self)@.gates, final(self)@.gates),
    {
        let ghost net0 = self@.gates;
        proof {
            self.lemma_store_wf();
        }
        let mut g = self.components.remove(&id).unwrap();
        g.set_state(val);
        let recvs = copy_edges(&g.output_recvlist);
        self.components.insert(id, g);
        let ghost base = net0.insert(id, GateView { state: val, ..net0[id] });
        assert(net_of(self.components@) =~= base);
        assert(store_wf(self.components@));
        deliver_value(&mut self.components, &recvs, val);
        proof {
            assert(base.dom() =~= net0.dom());
            assert(same_wiring(net0, base));
            lemma_deliver_keeps_wiring(base, recvs@, val, Seq::empty());
            lemma_same_wiring_chain(net0, base, self@.gates);
            lemma_wiring_keeps_wf(net0, self@.gates);
            lemma_restate_keeps_cached(net0, id, GateView { state: val, ..net0[id] }, val);
        }
    }

    /// The gates `ids` in the order of their formulas, or of their labels
    /// where `by_label` is set.
    #[verifier::rlimit(30)]
    fn order_by_name(&self, ids: &Vec<ID>, by_label: bool) -> (r: Vec<ID>)
        requires
            forall|i: int| 0 <= i < ids@.len() ==> self@.gates.contains_key(#[trigger] ids@[i]),
        ensures
            r@ == ordered_by(
                if by_label {
                    self@.label_of()
                } else {
                    self@.formula_of()
                },
                ids@,
            ),
            forall|i: int| 0 <= i < r@.len() ==> self@.gates.contains_key(#[trigger] r@[i]),
    {
        let ghost key = if by_label {
            self@.label_of()
        } else {
            self@.formula_of()
        };
        let mut r: Vec<ID> = Vec::new();
        let mut k: usize = 0;
        assert(ids@.take(0) =~= Seq::<ID>::empty());
        while k < ids.len()
            invariant
                k <= ids@.len(),
                key == if by_label {
                    self@.label_of()
                } else {
                    self@.formula_of()
                },
                forall|i: int| 0 <= i < ids@.len() ==> self@.gates.contains_key(#[trigger] ids@[i]),
                r@ == ordered_by(key, ids@.take(k as int)),
                forall|i: int| 0 <= i < r@.len() ==> self@.gates.contains_key(#[trigger] r@[i]),
            decreases ids@.len() - k,
        {
            let id = ids[k];
            assert(self@.gates.contains_key(ids@[k as int]));
            let name = match self.get_component(&id) {
                Some(g) => if by_label {
                    g.label.clone()
                } else {
                    g.state_expr.clone()
                },
                None => String::new(),
            };
            assert(name@ == key(id));
            let mut p: usize = 0;
            let mut more = true;
            assert(r@.skip(0) =~= r@);
            while more && p < r.len()
                invariant
                    p <= r@.len(),
                    key == if by_label {
                        self@.label_of()
                    } else {
                        self@.formula_of()
                    },
                    name@ == key(id),
                    forall|i: int| 0 <= i < r@.len() ==> self@.gates.contains_key(#[trigger] r@[i]),
                    leading_leq(key, r@, name@) == p + leading_leq(key, r@.skip(p as int), name@),
                    !more ==> leading_leq(key, r@.skip(p as int), name@) == 0,
                decreases r@.len() - p + if more { 1int } else { 0int },
            {
                assert(self@.gates.contains_key(r@[p as int]));
                let before = match self.get_component(&r[p]) {
                    Some(g) => if by_label {
                        str_leq(g.label.as_str(), name.as_str())
                    } else {
                        str_leq(g.state_expr.as_str(), name.as_str())
                    },
                    None => false,
                };
                proof {
                    let rest = r@.skip(p as int);
                    assert(rest[0] == r@[p as int]);
                    assert(rest.skip(1) =~= r@.skip(p + 1));
                }
                if before {
                    p = p + 1;
                } else {
                    more = false;
                }
            }
            proof {
                assert(ids@.take(k + 1).drop_last() =~= ids@.take(k as int));
                assert(ids@.take(k + 1).last() == id);
                if p == r@.len() {
                    assert(r@.skip(p as int) =~= Seq::<ID>::empty());
                }
                assert(leading_leq(key, r@, name@) == p);
            }
            let ghost before_insert = r@;
            r.insert(p, id);
            proof {
                assert forall|i: int| 0 <= i < r@.len() implies self@.gates.contains_key(
                    #[trigger] r@[i],
                ) by {
                    if i < p {
                        assert(r@[i] == before_insert[i]);
                    } else if i > p {
                        assert(r@[i] == before_insert[i - 1]);
                    }
                }
            }
            k = k + 1;
        }
        assert(ids@.take(ids@.len() as int) =~= ids@);
        r
    }

    /// Plays assignment `n` on the circuit and gives its row: the drivers
    /// `inps` take the binary digits of `n`, the values are propagated from
    /// `seeds`, the clock is pulsed, and the outputs `outs` are read.
    #[verifier::rlimit(30)]
    fn table_row(&mut self, n: usize, inps: &Vec<ID>, outs: &Vec<ID>, seeds: &Vec<ID>) -> (row: Vec<
        char,
    >)
        requires
            old(self).wf(),
            forall|j: int| 0 <= j < inps@.len() ==> old(self)@.gates.contains_key(#[trigger] inps@[j]),
            forall|j: int| 0 <= j < outs@.len() ==> old(self)@.gates.contains_key(#[trigger] outs@[j]),
            seeds@ == consumers(old(self)@.gates, inps@),
        ensures
            final(self).wf(),
            same_wiring(old(self)@.gates, final(self)@.gates),
            final(self)@ == (CircuitView {
                gates: (TruthPlan { drivers: inps@, outs: outs@, clk: old(self)@.clk }).row_net(
                    old(self)@.gates,
                    n as nat,
                ),
                ..old(self)@
            }),
            row@ == (TruthPlan { drivers: inps@, outs: outs@, clk: old(self)@.clk }).row_cells(
                n as nat,
                final(self)@.gates,
            ),
    {
        let ghost view0 = self@;
        let ghost net_n = self@.gates;
        let ghost plan = TruthPlan { drivers: inps@, outs: outs@, clk: self@.clk };
        let ct = unpack_bits(n, inps.len());
        let mut i: usize = 0;
        while i < inps.len()
            invariant
                i <= inps.len(),
                self.wf(),
                self@ == (CircuitView { gates: self@.gates, ..view0 }),
                same_wiring(net_n, self@.gates),
                ct@.len() == inps@.len(),
                forall|j: int| 0 <= j < inps@.len() ==> net_n.contains_key(#[trigger] inps@[j]),
                self@.gates == force_all(net_n, inps@.take(i as int), ct@),
            decreases inps.len() - i,
        {
            proof {
                assert(inps@.take(i + 1).drop_last() =~= inps@.take(i as int));
                assert(net_n.contains_key(inps@[i as int]));
            }
            let ghost prev = self@.gates;
            self.force(inps[i], ct[i]);
            proof {
                lemma_same_wiring_chain(net_n, prev, self@.gates);
            }
            i = i + 1;
        }
        proof {
            assert(inps@.take(inps.len() as int) =~= inps@);
        }
        let ghost net1 = self@.gates;
        self.graph_act(ComponentActor::UpdateState, seeds);
        proof {
            lemma_same_wiring_chain(net_n, net1, self@.gates);
        }
        let ghost net2 = self@.gates;
        match self.clk {
            Some(c) => {
                match self.state(c) {
                    Some(cur) => {
                        self.drive(c, !cur);
                        let ghost up = self@.gates;
                        self.drive(c, cur);
                        proof {
                            lemma_same_wiring_chain(net2, up, self@.gates);
                            lemma_same_wiring_chain(net_n, net2, self@.gates);
                        }
                    },
                    None => {},
                }
            },
            None => {},
        }
        assert(self@.gates == plan.row_net(net_n, n as nat));
        let mut row: Vec<char> = Vec::new();
        let mut j: usize = 0;
        while j < ct.len()
            invariant
                j <= ct@.len(),
                row@ =~= bit_chars(ct@).take(j as int),
            decreases ct@.len() - j,
        {
            row.push(
                if ct[j] {
                    '1'
                } else {
                    '0'
                },
            );
            j = j + 1;
        }
        let ghost digits = row@;
        assert(digits =~= bit_chars(ct@));
        let mut i: usize = 0;
        while i < outs.len()
            invariant
                i <= outs.len(),
                self.wf(),
                self@.gates.dom() == net_n.dom(),
                forall|j: int| 0 <= j < outs@.len() ==> net_n.contains_key(#[trigger] outs@[j]),
                row@ =~= digits + bit_chars(states_of(self@.gates, outs@)).take(i as int),
            decreases outs.len() - i,
        {
            assert(net_n.contains_key(outs@[i as int]));
            match self.state(outs[i]) {
                Some(v) => {
                    row.push(
                        if v {
                            '1'
                        } else {
                            '0'
                        },
                    );
                },
                None => {},
            }
            i = i + 1;
        }
        assert(row@ =~= plan.row_cells(n as nat, self@.gates));
        row
    }

    /// The truth table of the circuit.
    ///
    /// Its columns are the formulas of the drivers in order, then the
    /// labels of the tracked outputs in order. It has one row for each
    /// assignment of the drivers, counting up from zero, and the row reads
    /// as its number: the most significant binary digit stands in the first
    /// column. For each row the driver of each column takes the digit in
    /// its column; the values are propagated once; the clock is pulsed
    /// once; and the outputs are read. This is done whether or not the
    /// circuit is powered on. The circuit is left as the last row left it.
    /// A propagation that does not settle within the limit is taken as it
    /// is.
    #[verifier::rlimit(30)]
    pub fn gen_truth_table(&mut self) -> (t: Table<char>)
        requires
            old(self).wf(),
            old(self)@.drivers().len() < usize::BITS,
        ensures
            final(self).wf(),
            t.col_names() == old(self)@.truth_cols(),
            t.cell_rows().len() == pow2(old(self)@.drivers().len()),
            t.cell_rows() == old(self)@.truth_plan().rows(
                old(self)@.gates,
                pow2(old(self)@.drivers().len()),
            ).0,
            final(self)@ == (CircuitView {
                gates: old(self)@.truth_plan().rows(
                    old(self)@.gates,
                    pow2(old(self)@.drivers().len()),
                ).1,
                ..old(self)@
            }),
            t.col_names().len() == old(self)@.drivers().len() + old(self)@.outputs.len(),
            forall|n: int|
                0 <= n < t.cell_rows().len() ==> (#[trigger] t.cell_rows()[n]).len()
                    == t.col_names().len(),
            forall|n: int, j: int|
                0 <= n < t.cell_rows().len() && 0 <= j < t.col_names().len() ==> {
                    let cell = #[trigger] t.cell_rows()[n][j];
                    cell == '0' || cell == '1'
                },
            forall|n: int, j: int|
                0 <= n < t.cell_rows().len() && 0 <= j < old(self)@.drivers().len() ==> ((
                #[trigger] t.cell_rows()[n][j]) == '1' <==> bit_of(
                    n as nat,
                    (old(self)@.drivers().len() - 1 - j) as nat,
                )),
    {
        let ghost view0 = self@;
        let ghost net0 = self@.gates;
        let ghost plan = view0.truth_plan();
        let by_id = self.all_inputs_and_states();
        proof {
            lemma_drivers_exist(view0, view0.last_id as int);
            lemma_table_gates(view0);
        }
        let inps = self.order_by_name(&by_id, false);
        let listed = copy_ids(&self.outputs);
        let outs = self.order_by_name(&listed, true);
        // names of the columns, and the consumers of the drivers
        let mut cols: Vec<String> = Vec::new();
        let mut seeds: Vec<ID> = Vec::new();
        let mut i: usize = 0;
        while i < inps.len()
            invariant
                i <= inps.len(),
                self@ == view0,
                net0 == view0.gates,
                inps@ == view0.table_drivers(),
                forall|j: int| 0 <= j < inps@.len() ==> net0.contains_key(#[trigger] inps@[j]),
                texts(cols@) =~= inps@.map_values(view0.formula_of()).take(i as int),
                seeds@ == consumers(net0, inps@.take(i as int)),
            decreases inps.len() - i,
        {
            proof {
                assert(inps@.take(i + 1).drop_last() =~= inps@.take(i as int));
                assert(net0.contains_key(inps@[i as int]));
            }
            match self.get_component(&inps[i]) {
                Some(g) => {
                    let ghost before = cols@;
                    cols.push(g.state_expr.clone());
                    assert(texts(cols@) =~= texts(before).push(g.state_expr@));
                    let mut more = targets_of(&g.output_recvlist);
                    seeds.append(&mut more);
                },
                None => {},
            }
            i = i + 1;
        }
        let mut i: usize = 0;
        let ghost head = texts(cols@);
        while i < outs.len()
            invariant
                i <= outs.len(),
                self@ == view0,
                net0 == view0.gates,
                outs@ == view0.table_outputs(),
                forall|j: int| 0 <= j < outs@.len() ==> net0.contains_key(#[trigger] outs@[j]),
                texts(cols@) =~= head + outs@.map_values(view0.label_of()).take(i as int),
            decreases outs.len() - i,
        {
            proof {
                assert(net0.contains_key(outs@[i as int]));
            }
            match self.get_component(&outs[i]) {
                Some(g) => {
                    let ghost before = cols@;
                    cols.push(g.label.clone());
                    assert(texts(cols@) =~= texts(before).push(g.label@));
                },
                None => {},
            }
            i = i + 1;
        }
        proof {
            assert(inps@.take(inps.len() as int) =~= inps@);
            assert(texts(cols@) =~= view0.truth_cols());
        }
        let mut t = Table::<char>::new();
        let _ = t.set_columns(cols);
        let total = pow2_usize(inps.len());
        let mut n: usize = 0;
        assert(t.cell_rows() =~= plan.rows(net0, 0).0);
        while n < total
            invariant
                n <= total,
                self.wf(),
                self@ == (CircuitView { gates: self@.gates, ..view0 }),
                same_wiring(net0, self@.gates),
                net_wf(net0),
                plan == view0.truth_plan(),
                t.col_names() == view0.truth_cols(),
                inps@ == plan.drivers,
                outs@ == plan.outs,
                seeds@ == consumers(net0, inps@),
                forall|j: int| 0 <= j < inps@.len() ==> net0.contains_key(#[trigger] inps@[j]),
                forall|j: int| 0 <= j < outs@.len() ==> net0.contains_key(#[trigger] outs@[j]),
                t.cell_rows() == plan.rows(net0, n as nat).0,
                t.rows@.len() == n,
                self@.gates == plan.rows(net0, n as nat).1,
            decreases total - n,
        {
            let ghost net_n = self@.gates;
            proof {
                lemma_consumers_same(net0, net_n, inps@);
            }
            let row = self.table_row(n, &inps, &outs, &seeds);
            proof {
                lemma_same_wiring_chain(net0, net_n, self@.gates);
            }
            let ghost rows_before = t.cell_rows();
            t.rows.push(row);
            assert(t.cell_rows() =~= rows_before.push(plan.row_cells(n as nat, self@.gates)));
            n = n + 1;
        }
        proof {
            let k = view0.drivers().len();
            let width = k + view0.outputs.len();
            assert(t.col_names().len() == width);
            assert forall|n: int, j: int| 0 <= n < t.cell_rows().len() && 0 <= j < width implies {
                let cell = #[trigger] t.cell_rows()[n][j];
                &&& t.cell_rows()[n].len() == width
                &&& (cell == '0' || cell == '1')
                &&& j < k ==> (cell == '1' <==> bit_of(n as nat, (k - 1 - j) as nat))
            } by {
                lemma_rows_read(plan, net0, total as nat, n, j);
            }
            assert forall|n: int| 0 <= n < t.cell_rows().len() implies (#[trigger] t.cell_rows()[n]).len()
                == width by {
                lemma_rows_width(plan, net0, total as nat, n);
            }
        }
        t
    }
}

/// Every driver is a gate of the circuit.
pub proof fn lemma_drivers_exist(view: CircuitView, n: int)
    ensures
        forall|j: int|
            0 <= j < view.drivers_upto(n).len() ==> view.gates.contains_key(
                #[trigger] view.drivers_upto(n)[j],
            ),
    decreases n,
{
    if n > 0 {
        lemma_drivers_exist(view, n - 1);
        let prev = view.drivers_upto(n - 1);
        let all = view.drivers_upto(n);
        assert forall|j: int| 0 <= j < all.len() implies view.gates.contains_key(
            #[trigger] all[j],
        ) by {
            if j < prev.len() {
                assert(all[j] == prev[j]);
            } else {
                assert(view.is_driver(n as ID));
                assert(all[j] == n as ID);
            }
        }
    }
}

/// Nets of the same wiring give their gates the same consumers.
pub proof fn lemma_consumers_same(a: Net, b: Net, ids: Seq<ID>)
    requires
        same_wiring(a, b),
        forall|j: int| 0 <= j < ids.len() ==> a.contains_key(#[trigger] ids[j]),
    ensures
        consumers(a, ids) == consumers(b, ids),
    decreases ids.len(),
{
    if ids.len() > 0 {
        lemma_consumers_same(a, b, ids.drop_last());
        assert(a.contains_key(ids[ids.len() - 1]));
    }
}

fn copy_ids(v: &Vec<ID>) -> (r: Vec<ID>)
    ensures
        r@ == v@,
{
    let mut r: Vec<ID> = Vec::new();
    let mut i: usize = 0;
    while i < v.len()
        invariant
            i <= v.len(),
            r@ =~= v@.take(i as int),
        decreases v.len() - i,
    {
        r.push(v[i]);
        i = i + 1;
    }
    assert(v@.take(v.len() as int) =~= v@);
    r
}

/// A new label keeps the net well formed.
pub proof fn lemma_relabel_keeps_wf(net: Net, id: ID, lab: Seq<char>)
    requires
        net_wf(net),
        net.contains_key(id),
    ensures
        net_wf(net.insert(id, GateView { label: lab, ..net[id] })),
        net.insert(id, GateView { label: lab, ..net[id] }).dom() == net.dom(),
        values_cached(net) ==> values_cached(net.insert(id, GateView { label: lab, ..net[id] })),
{
    let after = net.insert(id, GateView { label: lab, ..net[id] });
    assert(after.dom() =~= net.dom());
    if values_cached(net) {
        assert forall|r: ID, p: PIN|
            after.contains_key(r) && p < after[r].pin_values.len() implies #[trigger] pin_value(
            after,
            r,
            p,
        ) == source_value(after, r, p) by {
            assert(net.contains_key(r));
            assert(net[r].wf());
            assert(pin_value(net, r, p) == source_value(net, r, p));
            if net[r].pin_sources[p as int] != NULL {
                assert(crate::network::slot_has_edge(net, r, p as int));
            }
        }
    }
    assert forall|x: ID, i: int|
        #![trigger after[x].receivers[i]]
        after.contains_key(x) && 0 <= i < after[x].receivers.len() implies crate::network::edge_has_slot(
        after,
        x,
        after[x].receivers[i],
    ) by {
        assert(net.contains_key(x));
        assert(crate::network::edge_has_slot(net, x, net[x].receivers[i]));
    }
    assert forall|y: ID, k: int|
        #![trigger after[y].pin_sources[k]]
        after.contains_key(y) && 0 <= k < after[y].pin_sources.len() && after[y].pin_sources[k]
            != NULL implies crate::network::slot_has_edge(after, y, k) by {
        assert(net.contains_key(y));
        assert(crate::network::slot_has_edge(net, y, k));
    }
}

/// Setting the output of a gate and propagating from its consumers leaves
/// the net settled, where the propagation empties its queue, the net was
/// settled, and the component is settled with its new output.
pub proof fn lemma_drive_settles(net: Net, id: ID, val: bool)
    requires
        net_wf(net),
        level_driven(net),
        net_settled(net),
        net.contains_key(id),
        (GateView { state: val, ..net[id] }).settled(),
        settles(
            forced(net, id, val),
            targets(net[id].receivers),
            ComponentActor::UpdateState,
            limit(),
        ),
    ensures
        net_settled(
            traverse(
                forced(net, id, val),
                targets(net[id].receivers),
                ComponentActor::UpdateState,
                limit(),
            ),
        ),
{
    let base = net.insert(id, GateView { state: val, ..net[id] });
    let net1 = forced(net, id, val);
    let ids = targets(net[id].receivers);
    let q = enqueue_all(Seq::empty(), ids);
    assert(base.dom() =~= net.dom());
    assert(same_wiring(net, base));
    lemma_deliver_keeps_wiring(base, net[id].receivers, val, Seq::empty());
    lemma_same_wiring_chain(net, base, net1);
    lemma_wiring_keeps_wf(net, net1);
    lemma_enqueue_all(Seq::empty(), ids);
    assert forall|x: ID|
        #![trigger net1.contains_key(x)]
        net1.contains_key(x) && !net1[x].settled() implies q.contains(x) by {
        if !ids.contains(x) {
            lemma_deliver_misses(base, net[id].receivers, val, x);
            assert(net.contains_key(x));
        }
    }
    lemma_run_settles(net1, q, ComponentActor::UpdateState, limit(), Set::full());
}

/// The two traversals after an edit leave the net settled, where the value
/// traversal empties its queue and only the edited gate was unsettled.
pub proof fn lemma_edit_settles(net: Net, seed: ID)
    requires
        net_wf(net),
        level_driven(net),
        forall|x: ID| #![trigger net.contains_key(x)] net.contains_key(x) && x != seed ==> net[x].settled(),
        settles(net, seq![seed], ComponentActor::UpdateState, limit()),
    ensures
        net_settled(
            traverse(
                traverse(net, seq![seed], ComponentActor::UpdateState, limit()),
                seq![seed],
                ComponentActor::SetExpressions,
                limit(),
            ),
        ),
{
    let q = enqueue_all(Seq::empty(), seq![seed]);
    lemma_enqueue_all(Seq::empty(), seq![seed]);
    assert(seq![seed][0] == seed);
    assert(q.contains(seed));
    lemma_run_settles(net, q, ComponentActor::UpdateState, limit(), Set::full());
    let mid = traverse(net, seq![seed], ComponentActor::UpdateState, limit());
    assert(net_settled(mid));
    lemma_expr_run_keeps_levels(mid, q, ComponentActor::SetExpressions, limit());
}

} // verus!
