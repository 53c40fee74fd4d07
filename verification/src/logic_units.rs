//! Building a group of gates from parsed expressions.

use vstd::prelude::*;
use vstd::string::*;
use crate::circuit::{find_def, limit, with_id, BCircuit, CircuitView};
use crate::components::{DefView, GateView};
use crate::network::{linked, settles, ComponentActor};
use crate::types::{CircuitError, ErrorView, ID, PIN};

verus! {

/// A parsed expression: an operator over its operands, or a name.
pub enum NodeType {
    Operator(char, Vec<NodeType>),
    Literal(String),
}

/// The gates that were built for a module: its inputs and its outputs by
/// name, and every gate that belongs to it.
pub struct ModuleCreationData {
    pub inputs: Vec<(String, ID)>,
    pub outputs: Vec<(String, ID)>,
    pub contents: Vec<ID>,
}

/// Why a module could not be built.
pub enum LogicUnitError {
    /// The left side of an assignment is not a name.
    LhsNotLabel,
    /// The operator is none of `=`, `!`, `+`, `.` and `*`.
    UndefinedOperator(char),
    /// The operator has fewer operands than it needs.
    MissingOperand(char),
    /// The expressions assign to no name.
    NoOutputs,
    /// The circuit has no identifier left.
    OutOfIds,
    /// The circuit refused a gate or a wire.
    Circuit(CircuitError),
}

/// A failure to build as a plain value.
pub enum UnitErrorView {
    LhsNotLabel,
    UndefinedOperator(char),
    MissingOperand(char),
    NoOutputs,
    OutOfIds,
    Circuit(ErrorView),
}

impl View for LogicUnitError {
    type V = UnitErrorView;

    open spec fn view(&self) -> UnitErrorView {
        match *self {
            LogicUnitError::LhsNotLabel => UnitErrorView::LhsNotLabel,
            LogicUnitError::UndefinedOperator(c) => UnitErrorView::UndefinedOperator(c),
            LogicUnitError::MissingOperand(c) => UnitErrorView::MissingOperand(c),
            LogicUnitError::NoOutputs => UnitErrorView::NoOutputs,
            LogicUnitError::OutOfIds => UnitErrorView::OutOfIds,
            LogicUnitError::Circuit(e) => UnitErrorView::Circuit(e@),
        }
    }
}

/// The names of a list of bindings.
pub open spec fn bound_names(b: Seq<(Seq<char>, ID)>) -> Seq<Seq<char>> {
    b.map_values(|e: (Seq<char>, ID)| e.0)
}

/// The component that `name` is bound to, if it is bound.
pub open spec fn lookup(b: Seq<(Seq<char>, ID)>, name: Seq<char>) -> Option<ID> {
    match bound_names(b).index_of_first(name) {
        Some(i) => Some(b[i].1),
        None => None,
    }
}

/// The bindings after `name` was bound to `id`: the binding takes the
/// place of the binding of that name, or the last place where there is
/// none.
pub open spec fn bind(b: Seq<(Seq<char>, ID)>, name: Seq<char>, id: ID) -> Seq<(Seq<char>, ID)> {
    match bound_names(b).index_of_first(name) {
        Some(i) => b.update(i, (name, id)),
        None => b.push((name, id)),
    }
}

/// The bindings of a list as plain values.
pub open spec fn bindings(v: Seq<(String, ID)>) -> Seq<(Seq<char>, ID)> {
    v.map_values(|e: (String, ID)| (e.0@, e.1))
}

/// What a build has made so far.
pub struct BuildState {
    pub ckt: CircuitView,
    pub inputs: Seq<(Seq<char>, ID)>,
    pub outputs: Seq<(Seq<char>, ID)>,
    pub contents: Seq<ID>,
}

impl BuildState {
    /// The state after a gate of kind `typ` with label `label` was asked
    /// for, and the new gate or why there is none. An identifier is used up
    /// where the circuit has one left.
    pub open spec fn add(self, typ: Seq<char>, label: Seq<char>) -> (BuildState, Result<
        ID,
        UnitErrorView,
    >) {
        if self.ckt.last_id >= i32::MAX {
            (self, Err(UnitErrorView::OutOfIds))
        } else {
            let id = (self.ckt.last_id + 1) as ID;
            match find_def(self.ckt.defs, typ) {
                Some(i) => (
                    BuildState {
                        ckt: CircuitView {
                            last_id: id,
                            gates: self.ckt.gates.insert(
                                id,
                                with_id(
                                    GateView::fresh(DefView { label: label, ..self.ckt.defs[i] }),
                                    id,
                                ),
                            ),
                            ..self.ckt
                        },
                        contents: self.contents.push(id),
                        ..self
                    },
                    Ok(id),
                ),
                None => (
                    BuildState { ckt: CircuitView { last_id: id, ..self.ckt }, ..self },
                    Err(UnitErrorView::Circuit(ErrorView::UnknownKind(typ))),
                ),
            }
        }
    }

    /// The state after gate `e` was asked to drive pin `p` of gate `r`, and
    /// why it does not where it does not.
    pub open spec fn wire(self, r: ID, p: PIN, e: ID) -> (BuildState, Result<(), UnitErrorView>) {
        match self.ckt.connect_fault(r, p, e) {
            Some(err) => (self, Err(UnitErrorView::Circuit(err))),
            None => (
                BuildState { ckt: self.ckt.connected(r, p, e), ..self },
                if settles(
                    linked(self.ckt.gates, r, p, e),
                    seq![r],
                    ComponentActor::UpdateState,
                    limit(),
                ) {
                    Ok(())
                } else {
                    Err(UnitErrorView::Circuit(ErrorView::PropagationLimitExceeded))
                },
            ),
        }
    }
}

/// The kind of gate that stands for a binary operator.
pub open spec fn kind_of(sym: char) -> Seq<char> {
    if sym == '+' {
        "OR"@
    } else if sym == '.' {
        "AND"@
    } else {
        "XOR"@
    }
}

/// The state after the expression `node` was built, and the component that
/// carries its value or why there is none.
///
/// A name is the buffer bound to it among the inputs; a new name gets a
/// new buffer. `!` is an inverter behind its operand. `+`, `.` and `*` are
/// an OR, an AND and an XOR gate behind their two operands. `=` is a new
/// buffer with the name on its left as label, bound to that name among the
/// outputs, behind the expression on its right. The component of an operator is
/// made before the gates of its operands. What was made stays where a
/// later step fails.
pub open spec fn build(node: NodeType, st: BuildState) -> (BuildState, Result<ID, UnitErrorView>)
    decreases node,
{
    match node {
        NodeType::Literal(sym) => match lookup(st.inputs, sym@) {
            Some(id) => (st, Ok(id)),
            None => {
                let made = st.add("BFR"@, sym@);
                match made.1 {
                    Ok(bfr) => (
                        BuildState { inputs: bind(made.0.inputs, sym@, bfr), ..made.0 },
                        Ok(bfr),
                    ),
                    Err(e) => (made.0, Err(e)),
                }
            },
        },
        NodeType::Operator(sym, childs) => {
            if sym == '=' {
                if childs@.len() < 2 {
                    (st, Err(UnitErrorView::MissingOperand(sym)))
                } else {
                    match childs@[0] {
                        NodeType::Operator(_, _) => (st, Err(UnitErrorView::LhsNotLabel)),
                        NodeType::Literal(name) => {
                            let made = st.add("BFR"@, name@);
                            match made.1 {
                                Err(e) => (made.0, Err(e)),
                                Ok(bfr) => {
                                    let right = build(childs@[1], made.0);
                                    match right.1 {
                                        Err(e) => (right.0, Err(e)),
                                        Ok(parent) => {
                                            let named = BuildState {
                                                outputs: bind(right.0.outputs, name@, bfr),
                                                ..right.0
                                            };
                                            let wired = named.wire(bfr, 1, parent);
                                            match wired.1 {
                                                Err(e) => (wired.0, Err(e)),
                                                Ok(_) => (wired.0, Ok(bfr)),
                                            }
                                        },
                                    }
                                },
                            }
                        },
                    }
                }
            } else if sym == '!' {
                if childs@.len() < 1 {
                    (st, Err(UnitErrorView::MissingOperand(sym)))
                } else {
                    let made = st.add("NOT"@, Seq::empty());
                    match made.1 {
                        Err(e) => (made.0, Err(e)),
                        Ok(n) => {
                            let operand = build(childs@[0], made.0);
                            match operand.1 {
                                Err(e) => (operand.0, Err(e)),
                                Ok(parent) => {
                                    let wired = operand.0.wire(n, 1, parent);
                                    match wired.1 {
                                        Err(e) => (wired.0, Err(e)),
                                        Ok(_) => (wired.0, Ok(n)),
                                    }
                                },
                            }
                        },
                    }
                }
            } else if sym == '+' || sym == '.' || sym == '*' {
                if childs@.len() < 2 {
                    (st, Err(UnitErrorView::MissingOperand(sym)))
                } else {
                    let made = st.add(kind_of(sym), Seq::empty());
                    match made.1 {
                        Err(e) => (made.0, Err(e)),
                        Ok(comp) => {
                            let left = build(childs@[0], made.0);
                            match left.1 {
                                Err(e) => (left.0, Err(e)),
                                Ok(l) => {
                                    let right = build(childs@[1], left.0);
                                    match right.1 {
                                        Err(e) => (right.0, Err(e)),
                                        Ok(r) => {
                                            let first = right.0.wire(comp, 1, l);
                                            match first.1 {
                                                Err(e) => (first.0, Err(e)),
                                                Ok(_) => {
                                                    let second = first.0.wire(comp, 2, r);
                                                    match second.1 {
                                                        Err(e) => (second.0, Err(e)),
                                                        Ok(_) => (second.0, Ok(comp)),
                                                    }
                                                },
                                            }
                                        },
                                    }
                                },
                            }
                        },
                    }
                }
            } else {
                (st, Err(UnitErrorView::UndefinedOperator(sym)))
            }
        },
    }
}

/// The state after the first `k` of the expressions `nodes` were built one
/// after the other, and the first failure if there was one; what follows a
/// failure is not built.
pub open spec fn build_all(nodes: Seq<NodeType>, st: BuildState, k: nat) -> (BuildState, Option<
    UnitErrorView,
>)
    decreases k,
{
    if k == 0 || k > nodes.len() {
        (st, None)
    } else {
        let prev = build_all(nodes, st, (k - 1) as nat);
        match prev.1 {
            Some(e) => prev,
            None => {
                let next = build(nodes[k - 1], prev.0);
                match next.1 {
                    Ok(_) => (next.0, None),
                    Err(e) => (next.0, Some(e)),
                }
            },
        }
    }
}

/// The component that `name` is bound to, if it is bound.
pub fn find_bound(b: &Vec<(String, ID)>, name: &str) -> (r: Option<ID>)
    ensures
        r == lookup(bindings(b@), name@),
{
    let key = String::from_str(name);
    let ghost names = bound_names(bindings(b@));
    let mut i: usize = 0;
    while i < b.len()
        invariant
            i <= b.len(),
            names == bound_names(bindings(b@)),
            key@ == name@,
            forall|k: int| 0 <= k < i ==> names[k] != name@,
        decreases b.len() - i,
    {
        if b[i].0 == key {
            proof {
                assert(names[i as int] == name@);
                names.index_of_first_ensures(name@);
            }
            return Some(b[i].1);
        }
        i = i + 1;
    }
    proof {
        names.index_of_first_ensures(name@);
    }
    None
}

/// Binds `name` to `id`; an older binding of the name is replaced.
pub fn bind_name(b: &mut Vec<(String, ID)>, name: &str, id: ID)
    ensures
        bindings(final(b)@) == bind(bindings(old(b)@), name@, id),
{
    let key = String::from_str(name);
    let ghost names = bound_names(bindings(b@));
    let mut i: usize = 0;
    while i < b.len()
        invariant
            i <= b.len(),
            *b == *old(b),
            names == bound_names(bindings(b@)),
            key@ == name@,
            forall|k: int| 0 <= k < i ==> names[k] != name@,
        decreases b.len() - i,
    {
        if b[i].0 == key {
            proof {
                assert(names[i as int] == name@);
                names.index_of_first_ensures(name@);
            }
            b[i] = (key, id);
            assert(bindings(b@) =~= bindings(old(b)@).update(i as int, (name@, id)));
            return ;
        }
        i = i + 1;
    }
    proof {
        names.index_of_first_ensures(name@);
    }
    b.push((key, id));
    assert(bindings(b@) =~= bindings(old(b)@).push((name@, id)));
}

/// What the four parts of a build hold together.
pub open spec fn state_of(
    ckt: CircuitView,
    inp_ids: Seq<(String, ID)>,
    out_ids: Seq<(String, ID)>,
    all_ids: Seq<ID>,
) -> BuildState {
    BuildState {
        ckt: ckt,
        inputs: bindings(inp_ids),
        outputs: bindings(out_ids),
        contents: all_ids,
    }
}

fn add_gate(ckt: &mut BCircuit, typ: &str, label: &str, all_ids: &mut Vec<ID>, Ghost(st): Ghost<
    BuildState,
>) -> (r: Result<ID, LogicUnitError>)
    requires
        old(ckt).wf(),
        st.ckt == old(ckt)@,
        st.contents == old(all_ids)@,
    ensures
        final(ckt).wf(),
        final(ckt)@ == st.add(typ@, label@).0.ckt,
        final(all_ids)@ == st.add(typ@, label@).0.contents,
        match r {
            Ok(id) => st.add(typ@, label@).1 == Ok::<ID, UnitErrorView>(id),
            Err(e) => st.add(typ@, label@).1 == Err::<ID, UnitErrorView>(e@),
        },
{
    if ckt.last_id() == i32::MAX {
        return Err(LogicUnitError::OutOfIds);
    }
    match ckt.add_component(typ, label) {
        Ok(id) => {
            all_ids.push(id);
            Ok(id)
        },
        Err(e) => Err(LogicUnitError::Circuit(e)),
    }
}

fn wire_gates(ckt: &mut BCircuit, r: ID, p: PIN, e: ID, Ghost(st): Ghost<BuildState>) -> (res: Result<
    (),
    LogicUnitError,
>)
    requires
        old(ckt).wf(),
        st.ckt == old(ckt)@,
    ensures
        final(ckt).wf(),
        final(ckt)@ == st.wire(r, p, e).0.ckt,
        match res {
            Ok(_) => st.wire(r, p, e).1 is Ok,
            Err(err) => st.wire(r, p, e).1 == Err::<(), UnitErrorView>(err@),
        },
{
    match ckt.connect(r, p, e) {
        Ok(_) => Ok(()),
        Err(err) => Err(LogicUnitError::Circuit(err)),
    }
}

/// Builds the gates of the expression `root` in `ckt`, and gives the component
/// that carries its value. The names met are bound in `inp_ids` and
/// `out_ids`, and every gate made is listed in `all_ids`.
pub fn traverse_add(
    root: &NodeType,
    ckt: &mut BCircuit,
    inp_ids: &mut Vec<(String, ID)>,
    out_ids: &mut Vec<(String, ID)>,
    all_ids: &mut Vec<ID>,
) -> (r: Result<ID, LogicUnitError>)
    requires
        old(ckt).wf(),
    ensures
        final(ckt).wf(),
        state_of(final(ckt)@, final(inp_ids)@, final(out_ids)@, final(all_ids)@) == build(
            *root,
            state_of(old(ckt)@, old(inp_ids)@, old(out_ids)@, old(all_ids)@),
        ).0,
        match r {
            Ok(id) => build(
                *root,
                state_of(old(ckt)@, old(inp_ids)@, old(out_ids)@, old(all_ids)@),
            ).1 == Ok::<ID, UnitErrorView>(id),
            Err(e) => build(
                *root,
                state_of(old(ckt)@, old(inp_ids)@, old(out_ids)@, old(all_ids)@),
            ).1 == Err::<ID, UnitErrorView>(e@),
        },
    decreases root,
{
    let ghost st = state_of(ckt@, inp_ids@, out_ids@, all_ids@);
    proof {
        reveal_strlit("");
        assert(""@ =~= Seq::<char>::empty());
    }
    match root {
        NodeType::Literal(sym) => {
            match find_bound(inp_ids, sym.as_str()) {
                Some(id) => Ok(id),
                None => {
                    let bfr = add_gate(ckt, "BFR", sym.as_str(), all_ids, Ghost(st))?;
                    bind_name(inp_ids, sym.as_str(), bfr);
                    Ok(bfr)
                },
            }
        },
        NodeType::Operator(sym, childs) => {
            if *sym == '=' {
                if childs.len() < 2 {
                    return Err(LogicUnitError::MissingOperand(*sym));
                }
                match &childs[0] {
                    NodeType::Operator(_, _) => Err(LogicUnitError::LhsNotLabel),
                    NodeType::Literal(name) => {
                        let bfr = add_gate(ckt, "BFR", name.as_str(), all_ids, Ghost(st))?;
                        let parent = traverse_add(&childs[1], ckt, inp_ids, out_ids, all_ids)?;
                        bind_name(out_ids, name.as_str(), bfr);
                        let ghost named = state_of(ckt@, inp_ids@, out_ids@, all_ids@);
                        wire_gates(ckt, bfr, 1, parent, Ghost(named))?;
                        Ok(bfr)
                    },
                }
            } else if *sym == '!' {
                if childs.len() < 1 {
                    return Err(LogicUnitError::MissingOperand(*sym));
                }
                let n = add_gate(ckt, "NOT", "", all_ids, Ghost(st))?;
                let parent = traverse_add(&childs[0], ckt, inp_ids, out_ids, all_ids)?;
                let ghost mid = state_of(ckt@, inp_ids@, out_ids@, all_ids@);
                wire_gates(ckt, n, 1, parent, Ghost(mid))?;
                Ok(n)
            } else if *sym == '+' || *sym == '.' || *sym == '*' {
                if childs.len() < 2 {
                    return Err(LogicUnitError::MissingOperand(*sym));
                }
                let kind = if *sym == '+' {
                    "OR"
                } else if *sym == '.' {
                    "AND"
                } else {
                    "XOR"
                };
                let comp = add_gate(ckt, kind, "", all_ids, Ghost(st))?;
                let left = traverse_add(&childs[0], ckt, inp_ids, out_ids, all_ids)?;
                let right = traverse_add(&childs[1], ckt, inp_ids, out_ids, all_ids)?;
                let ghost mid = state_of(ckt@, inp_ids@, out_ids@, all_ids@);
                wire_gates(ckt, comp, 1, left, Ghost(mid))?;
                let ghost last = state_of(ckt@, inp_ids@, out_ids@, all_ids@);
                wire_gates(ckt, comp, 2, right, Ghost(last))?;
                Ok(comp)
            } else {
                Err(LogicUnitError::UndefinedOperator(*sym))
            }
        },
    }
}

/// Builds the gates of the expressions `nodes` in `ckt`, one expression
/// after the other, and gives the inputs and outputs by name and the gates
/// made. Fails at the first expression that cannot be built, with what was
/// made until then left in the circuit, and where no name was assigned to.
pub fn get_logic_unit(ckt: &mut BCircuit, nodes: &Vec<NodeType>) -> (r: Result<
    ModuleCreationData,
    LogicUnitError,
>)
    requires
        old(ckt).wf(),
    ensures
        final(ckt).wf(),
        final(ckt)@ == build_all(
            nodes@,
            state_of(old(ckt)@, Seq::empty(), Seq::empty(), Seq::empty()),
            nodes@.len(),
        ).0.ckt,
        match build_all(
            nodes@,
            state_of(old(ckt)@, Seq::empty(), Seq::empty(), Seq::empty()),
            nodes@.len(),
        ) {
            (st, Some(e)) => r is Err && r->Err_0@ == e,
            (st, None) => if st.outputs.len() == 0 {
                r is Err && r->Err_0@ == UnitErrorView::NoOutputs
            } else {
                r is Ok && state_of(
                    final(ckt)@,
                    r->Ok_0.inputs@,
                    r->Ok_0.outputs@,
                    r->Ok_0.contents@,
                ) == st
            },
        },
{
    let ghost st0 = state_of(ckt@, Seq::empty(), Seq::empty(), Seq::empty());
    let mut inp_ids: Vec<(String, ID)> = Vec::new();
    let mut out_ids: Vec<(String, ID)> = Vec::new();
    let mut all_ids: Vec<ID> = Vec::new();
    assert(bindings(inp_ids@) =~= Seq::empty());
    assert(bindings(out_ids@) =~= Seq::empty());
    let mut k: usize = 0;
    while k < nodes.len()
        invariant
            k <= nodes@.len(),
            ckt.wf(),
            st0 == state_of(old(ckt)@, Seq::empty(), Seq::empty(), Seq::empty()),
            build_all(nodes@, st0, k as nat) == (
                state_of(ckt@, inp_ids@, out_ids@, all_ids@),
                None::<UnitErrorView>,
            ),
        decreases nodes@.len() - k,
    {
        match traverse_add(&nodes[k], ckt, &mut inp_ids, &mut out_ids, &mut all_ids) {
            Ok(_) => {},
            Err(e) => {
                proof {
                    lemma_build_stops(nodes@, st0, (k + 1) as nat, nodes@.len() as nat);
                }
                return Err(e);
            },
        }
        k = k + 1;
    }
    if out_ids.len() == 0 {
        return Err(LogicUnitError::NoOutputs);
    }
    Ok(ModuleCreationData { inputs: inp_ids, outputs: out_ids, contents: all_ids })
}

/// After a failure nothing more is built.
pub proof fn lemma_build_stops(nodes: Seq<NodeType>, st: BuildState, k: nat, n: nat)
    requires
        k <= n <= nodes.len(),
        build_all(nodes, st, k).1 is Some,
    ensures
        build_all(nodes, st, n) == build_all(nodes, st, k),
    decreases n,
{
    if n > k {
        lemma_build_stops(nodes, st, k, (n - 1) as nat);
    }
}

} // verus!
