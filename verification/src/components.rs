//! Gate definitions and gate instances.

use vstd::prelude::*;
use vstd::string::*;
use std::collections::{HashMap, VecDeque};
use crate::clock_manager::{ClockManager, ClockView};
use crate::network::{act, deliver, deliver_expr, enqueue, enqueue_all, net_of, targets, write_expr, write_pin, ComponentActor};
use crate::types::{
    BinaryLogicReducer, CircuitError, CompType, ReducerView, CLOCK_PIN, ID, NULL, PIN, UNASSIGNED,
};

verus! {

broadcast use vstd::std_specs::hash::group_hash_axioms;

/// The definition of a kind of gate.
pub struct ComponentDefParams {
    pub name: String,
    pub label: String,
    pub comp_type: CompType,
    pub eval: BinaryLogicReducer,
    pub default_inputs: u16,
    pub symbol: String,
}

/// A gate definition as plain values.
pub struct DefView {
    pub name: Seq<char>,
    pub label: Seq<char>,
    pub comp_type: CompType,
    pub eval: ReducerView,
    pub default_inputs: u16,
    pub symbol: Seq<char>,
}

impl View for ComponentDefParams {
    type V = DefView;

    open spec fn view(&self) -> DefView {
        DefView {
            name: self.name@,
            label: self.label@,
            comp_type: self.comp_type,
            eval: self.eval@,
            default_inputs: self.default_inputs,
            symbol: self.symbol@,
        }
    }
}

impl Clone for ComponentDefParams {
    fn clone(&self) -> (r: ComponentDefParams)
        ensures
            r@ == self@,
    {
        ComponentDefParams {
            name: self.name.clone(),
            label: self.label.clone(),
            comp_type: self.comp_type,
            eval: self.eval.clone(),
            default_inputs: self.default_inputs,
            symbol: self.symbol.clone(),
        }
    }
}

/// One gate of a circuit.
///
/// Pin 0 is the clock pin; the data pins follow. The three pin vectors have
/// one slot per pin: the value last written, the identifier of the component that
/// drives the pin (or `NULL`), and the formula of that gate.
pub struct Gate {
    pub name: String,
    pub id: ID,
    pub comp_type: CompType,
    pub label: String,
    pub eval: BinaryLogicReducer,
    pub state: bool,
    pub output_recvlist: Vec<(ID, PIN)>,
    pub symbol: String,
    pub input_pin_values: Vec<bool>,
    pub input_pin_sources: Vec<ID>,
    pub input_pin_exprs: Vec<String>,
    pub state_expr: String,
    pub clock_manager: Option<ClockManager>,
}

/// A gate as plain values.
pub struct GateView {
    pub name: Seq<char>,
    pub id: ID,
    pub comp_type: CompType,
    pub label: Seq<char>,
    pub eval: ReducerView,
    pub state: bool,
    pub receivers: Seq<(ID, PIN)>,
    pub symbol: Seq<char>,
    pub pin_values: Seq<bool>,
    pub pin_sources: Seq<ID>,
    pub pin_exprs: Seq<Seq<char>>,
    pub state_expr: Seq<char>,
    pub clock: Option<ClockView>,
}

/// The suffix that marks the formula of a sequential gate.
pub open spec fn time_suffix() -> Seq<char> {
    seq!['(', 't', ')']
}

impl GateView {
    /// The three pin vectors agree in length, which a pin number can hold,
    /// and hold at least the clock pin; no forward edge is listed twice; and
    /// exactly the sequential gates have an edge detector.
    pub open spec fn wf(self) -> bool {
        &&& self.pin_values.len() == self.pin_sources.len()
        &&& self.pin_values.len() == self.pin_exprs.len()
        &&& 1 <= self.pin_values.len() <= usize::MAX
        &&& self.receivers.no_duplicates()
        &&& (self.clock is Some <==> self.comp_type == CompType::Sequential)
    }

    pub open spec fn num_pins(self) -> nat {
        self.pin_exprs.len()
    }

    /// The component that `from_params` builds for a definition.
    pub open spec fn fresh(d: DefView) -> GateView {
        let n = d.default_inputs as nat + 1;
        let sequential = d.comp_type == CompType::Sequential;
        GateView {
            name: d.name,
            id: UNASSIGNED,
            comp_type: d.comp_type,
            label: d.label,
            eval: d.eval,
            state: d.eval.apply(Seq::new(n, |i: int| false), false),
            receivers: Seq::empty(),
            symbol: d.symbol,
            pin_values: Seq::new(n, |i: int| false),
            pin_sources: Seq::new(n, |i: int| NULL),
            pin_exprs: Seq::new(n, |i: int| Seq::<char>::empty()),
            state_expr: if sequential {
                d.label + time_suffix()
            } else {
                Seq::empty()
            },
            clock: if sequential {
                Some(ClockView::cleared())
            } else {
                None
            },
        }
    }

    /// The name under which inputs are registered.
    pub open spec fn input_kind() -> Seq<char> {
        seq!['I', 'n', 'p', 'u', 't']
    }

    /// The component that `make_input` builds: an externally driven gate with the
    /// clock pin only, whose formula is its label.
    pub open spec fn input(lab: Seq<char>, init: bool) -> GateView {
        GateView {
            name: Self::input_kind(),
            id: UNASSIGNED,
            comp_type: CompType::Input,
            label: lab,
            eval: ReducerView::Hold,
            state: init,
            receivers: Seq::empty(),
            symbol: lab,
            pin_values: seq![false],
            pin_sources: seq![NULL],
            pin_exprs: seq![Seq::<char>::empty()],
            state_expr: lab,
            clock: None,
        }
    }

    /// The component after `val` was written to pin `pin`; a write to the clock
    /// pin is also shown to the edge detector. A pin that the component does not
    /// have leaves it unchanged.
    pub open spec fn with_pin_val(self, pin: PIN, val: bool) -> GateView {
        if pin < self.pin_values.len() {
            GateView {
                pin_values: self.pin_values.update(pin as int, val),
                clock: if pin == CLOCK_PIN {
                    match self.clock {
                        Some(cm) => Some(cm.push(val)),
                        None => None,
                    }
                } else {
                    self.clock
                },
                ..self
            }
        } else {
            self
        }
    }

    /// The component after the formula `expr` was written to pin `pin`.
    pub open spec fn with_pin_expr(self, pin: PIN, expr: Seq<char>) -> GateView {
        if pin < self.pin_exprs.len() {
            GateView { pin_exprs: self.pin_exprs.update(pin as int, expr), ..self }
        } else {
            self
        }
    }

    /// The component with pin `pin` driven by a gate of identifier `src`, output
    /// `val` and formula `expr`.
    pub open spec fn with_source(self, pin: PIN, src: ID, val: bool, expr: Seq<char>) -> GateView {
        let g = self.with_pin_val(pin, val).with_pin_expr(pin, expr);
        GateView { pin_sources: g.pin_sources.update(pin as int, src), ..g }
    }

    /// The component with pin `pin` driven by nothing: value low, no source, no
    /// formula.
    pub open spec fn with_pin_cleared(self, pin: PIN) -> GateView {
        self.with_source(pin, NULL, false, Seq::empty())
    }

    /// The component with one more forward edge, unless it is already listed.
    pub open spec fn with_receiver(self, r: ID, pin: PIN) -> GateView {
        if self.receivers.contains((r, pin)) {
            self
        } else {
            GateView { receivers: self.receivers.push((r, pin)), ..self }
        }
    }

    /// The component without the forward edge to pin `pin` of `r`.
    pub open spec fn without_receiver(self, r: ID, pin: PIN) -> GateView {
        GateView { receivers: self.receivers.remove_value((r, pin)), ..self }
    }

    /// Whether the component keeps its output through every evaluation: it
    /// has no edge detector, and its logic hands the old output back.
    pub open spec fn holds(self) -> bool {
        self.clock is None && self.eval == ReducerView::Hold
    }

    /// Whether the edge detector holds a rising edge.
    pub open spec fn triggered(self) -> bool {
        match self.clock {
            Some(cm) => cm.triggered(),
            None => false,
        }
    }

    /// The output that an evaluation gives: a gate with an edge detector
    /// keeps its output unless a rising edge is held; every other gate
    /// applies its logic to its pins.
    pub open spec fn next_state(self) -> bool {
        if self.clock is Some && !self.triggered() {
            self.state
        } else {
            self.eval.apply(self.pin_values, self.state)
        }
    }

    /// The component after an evaluation found `next_state`: a held edge is
    /// consumed.
    pub open spec fn evaluated(self) -> GateView {
        GateView {
            state: self.next_state(),
            clock: if self.triggered() {
                Some(ClockView::cleared())
            } else {
                self.clock
            },
            ..self
        }
    }

    /// The description of the component for a terminal.
    pub open spec fn description(self) -> Seq<char> {
        self.name + " ("@ + crate::text::decimal(self.num_pins()) + " input"@ + (if self.num_pins()
            == 1 {
            ""@
        } else {
            "s"@
        }) + ") - Symbol: \x1b[33m"@ + self.symbol + "\x1b[0m - State: "@ + (if self.state {
            "\x1b[32mON\x1b[0m"@
        } else {
            "\x1b[31mOFF\x1b[0m"@
        }) + "\n"@ + crate::utils::join_spec(self.pin_exprs, "  \n"@)
    }

    /// An evaluation would change nothing: no edge is held and the output
    /// is what the logic gives for the pins.
    pub open spec fn settled(self) -> bool {
        !self.triggered() && self.next_state() == self.state
    }

    /// The output is what the logic gives for the pins as they are and for
    /// some earlier output: an evaluation gave it, and no pin was written
    /// since. Nothing is asked of a gate with an edge detector, which keeps
    /// its output between rising edges.
    pub open spec fn follows_pins(self) -> bool {
        self.clock is None ==> self.state == self.eval.apply(self.pin_values, true) || self.state
            == self.eval.apply(self.pin_values, false)
    }

    /// The formula that the component has by its category: the label for an
    /// input, the label and the time suffix for a sequential gate, and the
    /// operator applied to the formulas on the pins otherwise.
    pub open spec fn next_expr(self) -> Seq<char> {
        match self.comp_type {
            CompType::Combinational => crate::utils::form_expr_spec(self.pin_exprs, self.symbol),
            CompType::Sequential => self.label + time_suffix(),
            CompType::Input => self.label,
        }
    }
}

impl View for Gate {
    type V = GateView;

    open spec fn view(&self) -> GateView {
        GateView {
            name: self.name@,
            id: self.id,
            comp_type: self.comp_type,
            label: self.label@,
            eval: self.eval@,
            state: self.state,
            receivers: self.output_recvlist@,
            symbol: self.symbol@,
            pin_values: self.input_pin_values@,
            pin_sources: self.input_pin_sources@,
            pin_exprs: crate::utils::texts(self.input_pin_exprs@),
            state_expr: self.state_expr@,
            clock: match self.clock_manager {
                Some(cm) => Some(cm@),
                None => None,
            },
        }
    }
}

impl Gate {
    pub open spec fn wf(&self) -> bool {
        self@.wf()
    }

    /// Builds a gate of the kind that `p` defines. Its pins are all low and
    /// driven by nothing, and its output is what its logic gives for them.
    pub fn from_params(p: ComponentDefParams) -> (c: Gate)
        ensures
            c@ == GateView::fresh(p@),
            c.wf(),
    {
        let n_inp: usize = p.default_inputs as usize + 1;
        let mut values: Vec<bool> = Vec::new();
        let mut sources: Vec<ID> = Vec::new();
        let mut exprs: Vec<String> = Vec::new();
        let mut i: usize = 0;
        while i < n_inp
            invariant
                i <= n_inp,
                values@ =~= Seq::new(i as nat, |k: int| false),
                sources@ =~= Seq::new(i as nat, |k: int| NULL),
                crate::utils::texts(exprs@) =~= Seq::new(i as nat, |k: int| Seq::<char>::empty()),
            decreases n_inp - i,
        {
            let ghost before = exprs@;
            values.push(false);
            sources.push(NULL);
            exprs.push(String::new());
            assert(crate::utils::texts(exprs@) =~= crate::utils::texts(before).push(
                Seq::<char>::empty(),
            ));
            i = i + 1;
        }
        let state = p.eval.eval(&values, false);
        let sequential = p.comp_type == CompType::Sequential;
        let mut state_expr = String::new();
        let mut clock_manager: Option<ClockManager> = None;
        if sequential {
            proof {
                reveal_strlit("(t)");
            }
            clock_manager = Some(ClockManager::new());
            state_expr = p.label.clone();
            state_expr.append("(t)");
            assert("(t)"@ =~= time_suffix());
        }
        let c = Gate {
            name: p.name,
            id: UNASSIGNED,
            comp_type: p.comp_type,
            label: p.label,
            eval: p.eval,
            state,
            output_recvlist: Vec::new(),
            symbol: p.symbol,
            input_pin_values: values,
            input_pin_sources: sources,
            input_pin_exprs: exprs,
            state_expr,
            clock_manager,
        };
        assert(c@.receivers =~= Seq::empty());
        assert(c@.state_expr =~= GateView::fresh(p@).state_expr);
        c
    }

    /// Builds an externally driven gate with label `lab` and output `init`.
    pub fn make_input(lab: &str, init: bool) -> (c: Gate)
        ensures
            c@ == GateView::input(lab@, init),
            c.wf(),
    {
        proof {
            reveal_strlit("Input");
        }
        let mut c = Gate::from_params(
            ComponentDefParams {
                name: String::from_str("Input"),
                label: String::from_str(lab),
                comp_type: CompType::Input,
                eval: BinaryLogicReducer::Hold,
                default_inputs: 0,
                symbol: String::from_str(lab),
            },
        );
        c.state = init;
        c.state_expr = String::from_str(lab);
        assert(c@.name =~= GateView::input_kind());
        assert(c@.pin_values =~= seq![false]);
        assert(c@.pin_sources =~= seq![NULL]);
        assert(c@.pin_exprs =~= seq![Seq::<char>::empty()]);
        c
    }

    /// The number of pins, the clock pin included.
    pub fn num_inputs(&self) -> (n: usize)
        ensures
            n == self@.num_pins(),
    {
        self.input_pin_exprs.len()
    }

    pub fn set_state(&mut self, state: bool)
        ensures
            final(self)@ == (GateView { state: state, ..old(self)@ }),
    {
        self.state = state;
    }

    /// Inputs and sequential gates keep an output of their own.
    pub fn has_independent_state(&self) -> (r: bool)
        ensures
            r == (self.comp_type == CompType::Input || self.comp_type == CompType::Sequential),
    {
        self.comp_type == CompType::Input || self.comp_type == CompType::Sequential
    }

    /// Whether the forward edge to pin `pin` of `receiver_id` is listed.
    pub fn drives(&self, receiver_id: ID, pin: PIN) -> (r: bool)
        ensures
            r == self@.receivers.contains((receiver_id, pin)),
    {
        let mut i: usize = 0;
        while i < self.output_recvlist.len()
            invariant
                i <= self.output_recvlist.len(),
                forall|k: int| 0 <= k < i ==> self.output_recvlist@[k] != (receiver_id, pin),
            decreases self.output_recvlist.len() - i,
        {
            let e = self.output_recvlist[i];
            if e.0 == receiver_id && e.1 == pin {
                return true;
            }
            i = i + 1;
        }
        false
    }

    /// Adds the forward edge to pin `pin` of `receiver_id`; an edge that is
    /// already listed is not listed again.
    pub fn link_output_receiver(&mut self, receiver_id: ID, pin: PIN)
        ensures
            final(self)@ == old(self)@.with_receiver(receiver_id, pin),
            old(self).wf() ==> final(self).wf(),
    {
        if !self.drives(receiver_id, pin) {
            self.output_recvlist.push((receiver_id, pin));
        }
    }

    /// Removes the forward edge to pin `pin` of `receiver_id`, and fails
    /// where it is not listed.
    pub fn unlink_output_receiver(&mut self, receiver_id: ID, pin: PIN) -> (r: Result<
        (),
        CircuitError,
    >)
        ensures
            old(self)@.receivers.contains((receiver_id, pin)) ==> r is Ok && final(self)@ == old(self)@.without_receiver(receiver_id, pin),
            !old(self)@.receivers.contains((receiver_id, pin)) ==> r is Err && r->Err_0@
                == crate::types::ErrorView::EdgeAbsent(old(self).id, receiver_id, pin) && final(self)@ == old(self)@,
            old(self).wf() ==> final(self).wf(),
    {
        let mut i: usize = 0;
        while i < self.output_recvlist.len()
            invariant
                i <= self.output_recvlist.len(),
                forall|k: int| 0 <= k < i ==> self.output_recvlist@[k] != (receiver_id, pin),
                *self == *old(self),
            decreases self.output_recvlist.len() - i,
        {
            let e = self.output_recvlist[i];
            if e.0 == receiver_id && e.1 == pin {
                proof {
                    let s = self.output_recvlist@;
                    s.index_of_first_ensures((receiver_id, pin));
                    assert(s.index_of_first((receiver_id, pin)) == Some(i as int));
                    if s.no_duplicates() {
                        s.remove_ensures(i as int);
                    }
                }
                self.output_recvlist.remove(i);
                return Ok(());
            }
            i = i + 1;
        }
        proof {
            self.output_recvlist@.index_of_first_ensures((receiver_id, pin));
        }
        Err(CircuitError::EdgeAbsent(self.id, receiver_id, pin))
    }

    pub fn get_output_receivers(&self) -> (r: &Vec<(ID, PIN)>)
        ensures
            r@ == self@.receivers,
    {
        &self.output_recvlist
    }

    /// Lets `emitter` drive pin `pin`: the pin takes the emitter's output,
    /// identifier and formula. Fails, and changes nothing, where the component
    /// has no such pin or the pin is already driven.
    pub fn set_input_pin_connection(&mut self, pin: PIN, emitter: &Gate) -> (r: Result<
        (),
        CircuitError,
    >)
        requires
            old(self).wf(),
        ensures
            final(self).wf(),
            pin >= old(self)@.num_pins() ==> r is Err && r->Err_0@
                == crate::types::ErrorView::PinOutOfRange(pin, old(self)@.num_pins() as usize)
                && final(self)@ == old(self)@,
            pin < old(self)@.num_pins() && old(self)@.pin_sources[pin as int] != NULL ==> r is Err
                && r->Err_0@ == crate::types::ErrorView::PinAlreadyDriven(old(self).id, pin)
                && final(self)@ == old(self)@,
            pin < old(self)@.num_pins() && old(self)@.pin_sources[pin as int] == NULL ==> r is Ok
                && final(self)@ == old(self)@.with_source(
                pin,
                emitter.id,
                emitter.state,
                emitter.state_expr@,
            ),
    {
        if pin >= self.num_inputs() {
            return Err(CircuitError::PinOutOfRange(pin, self.num_inputs()));
        }
        if self.input_pin_sources[pin] != NULL {
            return Err(CircuitError::PinAlreadyDriven(self.id, pin));
        }
        self.set_pin_val(pin, emitter.state);
        self.set_pin_expr(pin, emitter.state_expr.as_str());
        self.input_pin_sources[pin] = emitter.id;
        Ok(())
    }

    /// Leaves pin `pin` driven by nothing. Fails, and changes nothing, where
    /// the component has no such pin.
    pub fn clear_input_pin_connection(&mut self, pin: PIN) -> (r: Result<(), CircuitError>)
        requires
            old(self).wf(),
        ensures
            final(self).wf(),
            pin >= old(self)@.num_pins() ==> r is Err && r->Err_0@
                == crate::types::ErrorView::PinOutOfRange(pin, old(self)@.num_pins() as usize)
                && final(self)@ == old(self)@,
            pin < old(self)@.num_pins() ==> r is Ok && final(self)@ == old(self)@.with_pin_cleared(
                pin,
            ),
    {
        if pin >= self.num_inputs() {
            return Err(CircuitError::PinOutOfRange(pin, self.num_inputs()));
        }
        self.set_pin_val(pin, false);
        self.set_pin_expr(pin, "");
        self.input_pin_sources[pin] = NULL;
        proof {
            reveal_strlit("");
            assert(""@ =~= Seq::<char>::empty());
        }
        Ok(())
    }

    /// Writes `val` to pin `pin`, and shows it to the edge detector where
    /// the pin is the clock pin.
    pub fn set_pin_val(&mut self, pin: PIN, val: bool)
        requires
            old(self).wf(),
            pin < old(self)@.num_pins(),
        ensures
            final(self)@ == old(self)@.with_pin_val(pin, val),
            final(self).wf(),
    {
        if pin == CLOCK_PIN {
            let cm = self.clock_manager.take();
            match cm {
                Some(mut m) => {
                    m.push(val);
                    self.clock_manager = Some(m);
                },
                None => {},
            }
        }
        self.input_pin_values[pin] = val;
    }

    /// Writes the formula `val` to pin `pin`.
    pub fn set_pin_expr(&mut self, pin: PIN, val: &str)
        requires
            old(self).wf(),
            pin < old(self)@.num_pins(),
        ensures
            final(self)@ == old(self)@.with_pin_expr(pin, val@),
            final(self).wf(),
    {
        self.input_pin_exprs[pin] = String::from_str(val);
        assert(final(self)@.pin_exprs =~= old(self)@.pin_exprs.update(pin as int, val@));
    }

    /// Evaluates the component: a gate with an edge detector keeps its output
    /// unless a rising edge is held, which is then consumed; every other
    /// gate applies its logic to its pins. Tells whether the output changed.
    pub fn evaluate(&mut self) -> (changed: bool)
        ensures
            final(self)@ == old(self)@.evaluated(),
            changed == (final(self).state != old(self).state),
            old(self).wf() ==> final(self).wf(),
    {
        let before = self.state;
        let cm = self.clock_manager.take();
        match cm {
            Some(mut m) => {
                if m.clock_triggered() {
                    m.reset_clock_hist();
                    self.state = self.eval.eval(&self.input_pin_values, self.state);
                }
                self.clock_manager = Some(m);
            },
            None => {
                self.state = self.eval.eval(&self.input_pin_values, self.state);
            },
        }
        self.state != before
    }

    /// A description of the component for a terminal: its kind, the number of its
    /// pins, its operator in yellow, its output as a green `ON` or a red
    /// `OFF`, and below that the formulas on its pins, one to a line.
    pub fn describe(&self) -> (r: String)
        ensures
            r@ == self@.description(),
    {
        let n = self.num_inputs();
        let mut r = self.name.clone();
        r.append(" (");
        r.append(crate::text::decimal_string(n as u64).as_str());
        r.append(" input");
        if n != 1 {
            r.append("s");
        }
        r.append(") - Symbol: \x1b[33m");
        r.append(self.symbol.as_str());
        r.append("\x1b[0m - State: ");
        if self.state {
            r.append("\x1b[32mON\x1b[0m");
        } else {
            r.append("\x1b[31mOFF\x1b[0m");
        }
        r.append("\n");
        proof {
            reveal_strlit("");
            assert(crate::utils::texts(self.input_pin_exprs@).skip(0) =~= crate::utils::texts(
                self.input_pin_exprs@,
            ));
            assert(r@ + Seq::<char>::empty() =~= r@);
        }
        let pins = crate::utils::join_from(&self.input_pin_exprs, 0, "  \n");
        r.append(pins.as_str());
        r
    }

    /// Recomputes the formula of the component and tells whether it changed.
    pub fn refresh_expr(&mut self) -> (changed: bool)
        ensures
            final(self)@ == (GateView { state_expr: old(self)@.next_expr(), ..old(self)@ }),
            changed == (old(self)@.next_expr() != old(self)@.state_expr),
    {
        let e = match self.comp_type {
            CompType::Combinational => crate::utils::form_expr(&self.input_pin_exprs, &self.symbol),
            CompType::Sequential => {
                proof {
                    reveal_strlit("(t)");
                }
                let mut e = self.label.clone();
                e.append("(t)");
                assert("(t)"@ =~= time_suffix());
                e
            },
            CompType::Input => self.label.clone(),
        };
        let changed = e != self.state_expr;
        self.state_expr = e;
        changed
    }
}

/// Every gate of the store is well formed.
pub open spec fn store_wf(m: Map<ID, Gate>) -> bool {
    forall|id: ID| #![trigger m.contains_key(id)] m.contains_key(id) ==> m[id].wf()
}

/// Schedules `id` for a visit, unless it already stands at the tail of the
/// queue.
pub fn enqueue_id(exec_q: &mut VecDeque<ID>, id: ID)
    ensures
        final(exec_q)@ == enqueue(old(exec_q)@, id),
{
    let n = exec_q.len();
    if n == 0 || exec_q[n - 1] != id {
        exec_q.push_back(id);
    }
}

/// A copy of a list of forward edges.
pub fn copy_edges(v: &Vec<(ID, PIN)>) -> (r: Vec<(ID, PIN)>)
    ensures
        r@ == v@,
{
    let mut r: Vec<(ID, PIN)> = Vec::new();
    let mut i: usize = 0;
    while i < v.len()
        invariant
            i <= v.len(),
            r@ =~= v@.take(i as int),
        decreases v.len() - i,
    {
        r.push(v[i]);
        i = i + 1;
    }
    assert(v@.take(v.len() as int) =~= v@);
    r
}

/// Writes `v` to pin `p` of gate `r` of the store, where there is such a
/// pin.
pub fn put_pin_val(mp: &mut HashMap<ID, Gate>, r: ID, p: PIN, v: bool)
    requires
        store_wf(old(mp)@),
    ensures
        store_wf(final(mp)@),
        net_of(final(mp)@) == write_pin(net_of(old(mp)@), r, p, v),
{
    match mp.remove(&r) {
        Some(mut g) => {
            if p < g.num_inputs() {
                g.set_pin_val(p, v);
            }
            mp.insert(r, g);
            assert(net_of(mp@) =~= write_pin(net_of(old(mp)@), r, p, v));
        },
        None => {
            assert(mp@ =~= old(mp)@);
        },
    }
}

/// Writes the formula `e` to pin `p` of gate `r` of the store, where there
/// is such a pin.
pub fn put_pin_expr(mp: &mut HashMap<ID, Gate>, r: ID, p: PIN, e: &str)
    requires
        store_wf(old(mp)@),
    ensures
        store_wf(final(mp)@),
        net_of(final(mp)@) == write_expr(net_of(old(mp)@), r, p, e@),
{
    match mp.remove(&r) {
        Some(mut g) => {
            if p < g.num_inputs() {
                g.set_pin_expr(p, e);
            }
            mp.insert(r, g);
            assert(net_of(mp@) =~= write_expr(net_of(old(mp)@), r, p, e@));
        },
        None => {
            assert(mp@ =~= old(mp)@);
        },
    }
}

/// Visits gate `id` in a traversal that forces one pass: the component is
/// evaluated, its output is written to the pin of each forward edge, and
/// the receivers are scheduled.
pub fn power_on_component(id: ID, mp: &mut HashMap<ID, Gate>, exec_q: &mut VecDeque<ID>)
    requires
        store_wf(old(mp)@),
    ensures
        store_wf(final(mp)@),
        (net_of(final(mp)@), final(exec_q)@) == act(
            net_of(old(mp)@),
            old(exec_q)@,
            id,
            ComponentActor::PowerOn,
        ),
{
    state_update(id, mp, exec_q, false);
}

/// Visits gate `id` in a traversal that stops at unchanged gates: the component
/// is evaluated, and only where its output changed is it written to the
/// pin of each forward edge and the receivers scheduled.
pub fn update_component_state(id: ID, mp: &mut HashMap<ID, Gate>, exec_q: &mut VecDeque<ID>)
    requires
        store_wf(old(mp)@),
    ensures
        store_wf(final(mp)@),
        (net_of(final(mp)@), final(exec_q)@) == act(
            net_of(old(mp)@),
            old(exec_q)@,
            id,
            ComponentActor::UpdateState,
        ),
{
    state_update(id, mp, exec_q, true);
}

/// The value visit of gate `id`; `optimize` makes an unchanged output end
/// the visit.
pub fn state_update(id: ID, mp: &mut HashMap<ID, Gate>, exec_q: &mut VecDeque<ID>, optimize: bool)
    requires
        store_wf(old(mp)@),
    ensures
        store_wf(final(mp)@),
        (net_of(final(mp)@), final(exec_q)@) == act(
            net_of(old(mp)@),
            old(exec_q)@,
            id,
            if optimize {
                ComponentActor::UpdateState
            } else {
                ComponentActor::PowerOn
            },
        ),
{
    let ghost net0 = net_of(mp@);
    let ghost q0 = exec_q@;
    match mp.remove(&id) {
        None => {
            assert(mp@ =~= old(mp)@);
        },
        Some(mut c) => {
            let changed = c.evaluate();
            if optimize && !changed {
                mp.insert(id, c);
                assert(net_of(mp@) =~= net0.insert(id, net0[id].evaluated()));
                return ;
            }
            let v = c.state;
            let recvs = copy_edges(&c.output_recvlist);
            mp.insert(id, c);
            let ghost base = net0.insert(id, net0[id].evaluated());
            assert(net_of(mp@) =~= base);
            let mut i: usize = 0;
            while i < recvs.len()
                invariant
                    i <= recvs.len(),
                    store_wf(mp@),
                    net_of(mp@) == deliver(base, recvs@.take(i as int), v),
                    exec_q@ == enqueue_all(q0, targets(recvs@).take(i as int)),
                decreases recvs.len() - i,
            {
                let edge = recvs[i];
                proof {
                    let next = recvs@.take(i + 1);
                    assert(next.drop_last() =~= recvs@.take(i as int));
                    let ids = targets(recvs@).take(i + 1);
                    assert(ids.drop_last() =~= targets(recvs@).take(i as int));
                }
                put_pin_val(mp, edge.0, edge.1, v);
                enqueue_id(exec_q, edge.0);
                i = i + 1;
            }
            proof {
                assert(recvs@.take(recvs.len() as int) =~= recvs@);
                assert(targets(recvs@).take(recvs.len() as int) =~= targets(recvs@));
            }
        },
    }
}

/// A formula visit of gate `id`: the formula is recomputed; where it
/// changed, or where `always` is set, it is written to the pin of each
/// forward edge and the receivers are scheduled.
fn formula_update(id: ID, mp: &mut HashMap<ID, Gate>, exec_q: &mut VecDeque<ID>, always: bool)
    requires
        store_wf(old(mp)@),
    ensures
        store_wf(final(mp)@),
        (net_of(final(mp)@), final(exec_q)@) == act(
            net_of(old(mp)@),
            old(exec_q)@,
            id,
            if always {
                ComponentActor::Compile
            } else {
                ComponentActor::SetExpressions
            },
        ),
{
    let ghost net0 = net_of(mp@);
    let ghost q0 = exec_q@;
    match mp.remove(&id) {
        None => {
            assert(mp@ =~= old(mp)@);
        },
        Some(mut c) => {
            let changed = c.refresh_expr();
            if !changed && !always {
                mp.insert(id, c);
                assert(net_of(mp@) =~= net0);
                return ;
            }
            let e = c.state_expr.clone();
            let recvs = copy_edges(&c.output_recvlist);
            mp.insert(id, c);
            let ghost base = net0.insert(
                id,
                GateView { state_expr: net0[id].next_expr(), ..net0[id] },
            );
            assert(net_of(mp@) =~= base);
            let mut i: usize = 0;
            while i < recvs.len()
                invariant
                    i <= recvs.len(),
                    store_wf(mp@),
                    net_of(mp@) == deliver_expr(base, recvs@.take(i as int), e@),
                    exec_q@ == enqueue_all(q0, targets(recvs@).take(i as int)),
                decreases recvs.len() - i,
            {
                let edge = recvs[i];
                proof {
                    let next = recvs@.take(i + 1);
                    assert(next.drop_last() =~= recvs@.take(i as int));
                    let ids = targets(recvs@).take(i + 1);
                    assert(ids.drop_last() =~= targets(recvs@).take(i as int));
                }
                put_pin_expr(mp, edge.0, edge.1, e.as_str());
                enqueue_id(exec_q, edge.0);
                i = i + 1;
            }
            proof {
                assert(recvs@.take(recvs.len() as int) =~= recvs@);
                assert(targets(recvs@).take(recvs.len() as int) =~= targets(recvs@));
            }
        },
    }
}

/// The formula visit of gate `id`: the formula is recomputed, and only
/// where it changed is it written to the pin of each forward edge and the
/// receivers scheduled.
pub fn set_expressions(id: ID, mp: &mut HashMap<ID, Gate>, exec_q: &mut VecDeque<ID>)
    requires
        store_wf(old(mp)@),
    ensures
        store_wf(final(mp)@),
        (net_of(final(mp)@), final(exec_q)@) == act(
            net_of(old(mp)@),
            old(exec_q)@,
            id,
            ComponentActor::SetExpressions,
        ),
{
    formula_update(id, mp, exec_q, false)
}

/// The first visit of a compiling pass to gate `id`: the formula is
/// recomputed and, changed or not, written to the pin of each forward
/// edge, and the receivers are scheduled.
pub fn compile_component(id: ID, mp: &mut HashMap<ID, Gate>, exec_q: &mut VecDeque<ID>)
    requires
        store_wf(old(mp)@),
    ensures
        store_wf(final(mp)@),
        (net_of(final(mp)@), final(exec_q)@) == act(
            net_of(old(mp)@),
            old(exec_q)@,
            id,
            ComponentActor::Compile,
        ),
{
    formula_update(id, mp, exec_q, true)
}

/// Writes `v` to the pin of each of the forward edges `recvs`.
pub fn deliver_value(mp: &mut HashMap<ID, Gate>, recvs: &Vec<(ID, PIN)>, v: bool)
    requires
        store_wf(old(mp)@),
    ensures
        store_wf(final(mp)@),
        net_of(final(mp)@) == deliver(net_of(old(mp)@), recvs@, v),
{
    let ghost base = net_of(mp@);
    let mut i: usize = 0;
    while i < recvs.len()
        invariant
            i <= recvs.len(),
            store_wf(mp@),
            net_of(mp@) == deliver(base, recvs@.take(i as int), v),
        decreases recvs.len() - i,
    {
        let edge = recvs[i];
        proof {
            assert(recvs@.take(i + 1).drop_last() =~= recvs@.take(i as int));
        }
        put_pin_val(mp, edge.0, edge.1, v);
        i = i + 1;
    }
    proof {
        assert(recvs@.take(recvs.len() as int) =~= recvs@);
    }
}

/// The gates that a list of forward edges leads to, in order.
pub fn targets_of(recvs: &Vec<(ID, PIN)>) -> (r: Vec<ID>)
    ensures
        r@ == targets(recvs@),
{
    let mut r: Vec<ID> = Vec::new();
    let mut i: usize = 0;
    while i < recvs.len()
        invariant
            i <= recvs.len(),
            r@ =~= targets(recvs@).take(i as int),
        decreases recvs.len() - i,
    {
        r.push(recvs[i].0);
        i = i + 1;
    }
    proof {
        assert(targets(recvs@).take(recvs.len() as int) =~= targets(recvs@));
    }
    r
}

} // verus!
