use bsim::circuit::BCircuit;
use bsim::clock_manager::ClockManager;
use bsim::components::{
    compile_component, enqueue_id, power_on_component, set_expressions, update_component_state,
    ComponentDefParams,
    Gate,
};
use bsim::network::ComponentActor;
use std::collections::HashMap;
use std::collections::VecDeque;
use bsim::table::Table;
use bsim::types::{BinaryLogicReducer, CircuitError, CompType, CLOCK_PIN, NULL, UNASSIGNED};
use bsim::utils::{form_expr, str_leq};

fn strings(v: &[&str]) -> Vec<String> {
    v.iter().map(|s| s.to_string()).collect()
}

#[test]
fn feedback_not_chain() {
    let mut c = BCircuit::new();
    c.power_on();
    let a = c.add_input("A", false);
    let b = c.add_component("NOT", "B").unwrap();
    let cc = c.add_component("NOT", "C").unwrap();
    c.connect(b, 1, a).unwrap();
    c.connect(cc, 1, b).unwrap();
    assert_eq!((c.state(a), c.state(b), c.state(cc)), (Some(false), Some(true), Some(false)));
    c.set_component_state(a, true).unwrap();
    assert_eq!((c.state(a), c.state(b), c.state(cc)), (Some(true), Some(false), Some(true)));
    c.remove_component(a).unwrap();
    assert_eq!(c.state(a), None);
    assert_eq!(c.get_component(&b).unwrap().input_pin_sources[1], NULL);
    assert_eq!((c.state(b), c.state(cc)), (Some(true), Some(false)));
}

#[test]
fn sr_latch_holds_its_state() {
    let mut c = BCircuit::new();
    c.power_on();
    let q = c.add_component("NAND", "q").unwrap();
    let nq = c.add_component("NAND", "nq").unwrap();
    let s = c.add_input("S", true);
    let r = c.add_input("R", false);
    c.connect(q, 1, s).unwrap();
    c.connect(nq, 2, r).unwrap();
    c.connect(q, 2, nq).unwrap();
    c.connect(nq, 1, q).unwrap();
    assert_eq!((c.state(q), c.state(nq)), (Some(false), Some(true)));
    // with Q low the other gate is high whatever R is
    c.set_component_state(r, true).unwrap();
    assert_eq!((c.state(q), c.state(nq)), (Some(false), Some(true)));
    // a low S sets the latch, and it stays set when S returns
    c.set_component_state(s, false).unwrap();
    assert_eq!((c.state(q), c.state(nq)), (Some(true), Some(false)));
    c.set_component_state(s, true).unwrap();
    assert_eq!((c.state(q), c.state(nq)), (Some(true), Some(false)));
    // a low R resets it
    c.set_component_state(r, false).unwrap();
    assert_eq!((c.state(q), c.state(nq)), (Some(false), Some(true)));
}

#[test]
fn removal_cascade() {
    let mut c = BCircuit::new();
    c.power_on();
    let i = c.add_input("I", false);
    let n1 = c.add_component("NOT", "N1").unwrap();
    let n2 = c.add_component("NOT", "N2").unwrap();
    c.connect(n1, 1, i).unwrap();
    c.connect(n2, 1, n1).unwrap();
    assert_eq!((c.state(i), c.state(n1), c.state(n2)), (Some(false), Some(true), Some(false)));
    c.track_output(n1);
    c.remove_component(n1).unwrap();
    let g = c.get_component(&n2).unwrap();
    assert_eq!(g.input_pin_sources[1], NULL);
    assert_eq!(g.input_pin_values[1], false);
    assert_eq!(g.state, true);
    assert!(c.get_component(&i).unwrap().get_output_receivers().is_empty());
    assert!(c.outputs().is_empty());
    assert_eq!(c.remove_component(n1), Err(CircuitError::UnknownId(n1)));
}

#[test]
fn self_connection_is_rejected() {
    let mut c = BCircuit::new();
    let q = c.add_component("JK", "Q").unwrap();
    assert_eq!(c.connect(q, 1, q), Err(CircuitError::SelfConnectionRejected(q)));
    let g = c.get_component(&q).unwrap();
    assert!(g.get_output_receivers().is_empty());
    assert_eq!(g.input_pin_sources, vec![NULL, NULL, NULL]);
}

#[test]
fn connect_failures_change_nothing() {
    let mut c = BCircuit::new();
    let a = c.add_input("A", true);
    let b = c.add_input("B", true);
    let n = c.add_component("NOT", "N").unwrap();
    assert_eq!(c.connect(99, 1, a), Err(CircuitError::UnknownId(99)));
    assert_eq!(c.connect(n, 1, 98), Err(CircuitError::UnknownId(98)));
    assert_eq!(c.connect(n, 2, a), Err(CircuitError::PinOutOfRange(2, 2)));
    assert_eq!(c.connect(n, 1, a), Ok(()));
    assert_eq!(c.connect(n, 1, b), Err(CircuitError::PinAlreadyDriven(n, 1)));
    assert!(c.get_component(&b).unwrap().get_output_receivers().is_empty());
    assert_eq!(c.get_component(&n).unwrap().input_pin_sources[1], a);
    assert_eq!(c.disconnect(n, 1, b), Err(CircuitError::EdgeAbsent(b, n, 1)));
    assert_eq!(c.disconnect(97, 1, b), Err(CircuitError::UnknownId(97)));
    assert_eq!(c.disconnect(n, 1, 96), Err(CircuitError::UnknownId(96)));
    assert_eq!(c.get_component(&n).unwrap().input_pin_sources[1], a);
}

#[test]
fn connect_then_disconnect_restores_the_wiring() {
    let mut c = BCircuit::new();
    let a = c.add_input("A", true);
    let n = c.add_component("NOT", "N").unwrap();
    let m = c.add_component("AND", "M").unwrap();
    c.connect(m, 2, a).unwrap();
    let before = c.get_component(&a).unwrap().get_output_receivers().clone();
    c.connect(n, 1, a).unwrap();
    assert_eq!(c.get_component(&a).unwrap().get_output_receivers(), &vec![(m, 2), (n, 1)]);
    let pins = c.get_component(&n).unwrap().num_inputs();
    assert_eq!(c.get_component(&n).unwrap().input_pin_exprs[1], "A");
    c.disconnect(n, 1, a).unwrap();
    assert_eq!(c.get_component(&n).unwrap().input_pin_sources[1], NULL);
    assert_eq!(c.get_component(&n).unwrap().input_pin_exprs[1], "");
    assert!(!c.get_component(&n).unwrap().input_pin_values[1]);
    assert_eq!(c.get_component(&n).unwrap().num_inputs(), pins);
    assert_eq!(c.get_component(&a).unwrap().get_output_receivers(), &before);
    assert_eq!(c.get_component(&m).unwrap().input_pin_sources, vec![NULL, NULL, a]);
}

#[test]
fn a_gate_that_reads_its_own_output_follows_its_pins() {
    // a flip-flop function without a clock: each evaluation with both pins
    // high toggles the output
    let mut c = BCircuit::new();
    c.define_gate(ComponentDefParams {
        name: "TOGGLE".to_string(),
        label: String::new(),
        comp_type: CompType::Combinational,
        eval: BinaryLogicReducer::JK,
        default_inputs: 2,
        symbol: "T".to_string(),
    });
    c.power_on();
    let one = c.add_input("one", true);
    let t = c.add_component("TOGGLE", "t").unwrap();
    assert_eq!(c.connect(t, 1, one), Ok(()));
    // J high, K low: set
    assert_eq!(c.state(t), Some(true));
    assert_eq!(c.connect(t, 2, one), Ok(()));
    // J and K high: the output is the toggled earlier one
    assert_eq!(c.state(t), Some(false));
    assert_eq!(c.set_component_state(one, true), Ok(()));
    assert_eq!(c.state(one), Some(true));
    assert_eq!(c.state(t), Some(true));
}

#[test]
fn every_edge_has_its_source_slot() {
    let mut c = BCircuit::new();
    c.power_on();
    let a = c.add_input("A", true);
    let b = c.add_input("B", false);
    let x = c.add_component("XOR", "X").unwrap();
    let q = c.add_component("JK", "Q").unwrap();
    c.connect(x, 1, a).unwrap();
    c.connect(x, 2, b).unwrap();
    c.connect(q, 1, x).unwrap();
    c.connect(q, 0, b).unwrap();
    c.disconnect(x, 2, b).unwrap();
    for (id, g) in c.components() {
        for (r, p) in g.get_output_receivers() {
            assert_eq!(c.get_component(r).unwrap().input_pin_sources[*p], *id);
        }
        for (p, src) in g.input_pin_sources.iter().enumerate() {
            if *src != NULL {
                assert!(c.get_component(src).unwrap().get_output_receivers().contains(&(*id, p)));
            }
        }
    }
}

#[test]
fn refresh_twice_changes_nothing() {
    let mut c = BCircuit::new();
    c.power_on();
    let a = c.add_input("A", true);
    let q = c.add_component("JK", "Q").unwrap();
    let n = c.add_component("NOT", "N").unwrap();
    c.connect(q, 1, a).unwrap();
    c.connect(q, 0, a).unwrap();
    c.connect(n, 1, q).unwrap();
    assert_eq!(c.refresh(), Ok(()));
    let once: Vec<(i32, bool)> = (1..=3).map(|id| (id, c.state(id).unwrap())).collect();
    assert_eq!(c.refresh(), Ok(()));
    let twice: Vec<(i32, bool)> = (1..=3).map(|id| (id, c.state(id).unwrap())).collect();
    assert_eq!(once, twice);
}

#[test]
fn ring_of_inverters_exceeds_the_limit() {
    let mut c = BCircuit::new();
    c.power_on();
    let n1 = c.add_component("NOT", "1").unwrap();
    let n2 = c.add_component("NOT", "2").unwrap();
    let n3 = c.add_component("NOT", "3").unwrap();
    c.connect(n2, 1, n1).unwrap();
    c.connect(n3, 1, n2).unwrap();
    assert_eq!(c.connect(n1, 1, n3), Err(CircuitError::PropagationLimitExceeded));
    // the wire was taken back
    assert_eq!(c.get_component(&n1).unwrap().input_pin_sources[1], NULL);
    assert!(!c.get_component(&n1).unwrap().input_pin_values[1]);
    assert!(c.get_component(&n3).unwrap().output_recvlist.is_empty());
    assert_eq!(c.get_component(&n1).unwrap().output_recvlist, vec![(n2, 1)]);
    assert_eq!(c.get_component(&n2).unwrap().output_recvlist, vec![(n3, 1)]);
    assert_eq!(c.disconnect(n1, 1, n3), Err(CircuitError::EdgeAbsent(n3, n1, 1)));
    // the open chain takes an input and settles
    let a = c.add_input("A", false);
    assert_eq!(c.connect(n1, 1, a), Ok(()));
    assert_eq!((c.state(n1), c.state(n2), c.state(n3)), (Some(true), Some(false), Some(true)));
}

#[test]
fn cut_that_starts_a_ring_is_put_back() {
    let mut c = BCircuit::new();
    c.power_on();
    let a = c.add_input("A", true);
    let hold = c.add_component("OR", "hold").unwrap();
    let inv = c.add_component("NOT", "inv").unwrap();
    let back = c.add_component("BFR", "back").unwrap();
    let tap = c.add_component("BFR", "tap").unwrap();
    c.connect(hold, 1, a).unwrap();
    c.connect(tap, 1, a).unwrap();
    c.connect(inv, 1, hold).unwrap();
    c.connect(back, 1, inv).unwrap();
    c.connect(hold, 2, back).unwrap();
    assert_eq!((c.state(hold), c.state(inv), c.state(back)), (Some(true), Some(false), Some(false)));
    assert_eq!(c.get_component(&a).unwrap().output_recvlist, vec![(hold, 1), (tap, 1)]);
    assert_eq!(c.disconnect(hold, 1, a), Err(CircuitError::PropagationLimitExceeded));
    // the wire is back: the pin names its source and carries its output
    assert_eq!(c.get_component(&hold).unwrap().input_pin_sources, vec![NULL, a, back]);
    assert!(c.get_component(&hold).unwrap().input_pin_values[1]);
    assert_eq!(c.get_component(&a).unwrap().output_recvlist, vec![(tap, 1), (hold, 1)]);
    assert_eq!(c.get_component(&inv).unwrap().input_pin_sources, vec![NULL, hold]);
    // driving the input again lets the values settle
    assert_eq!(c.set_component_state(a, true), Ok(()));
    assert_eq!((c.state(hold), c.state(inv), c.state(back)), (Some(true), Some(false), Some(false)));
    assert_eq!(c.disconnect(tap, 1, a), Ok(()));
    assert_eq!(c.get_component(&a).unwrap().output_recvlist, vec![(hold, 1)]);
}

#[test]
fn set_state_needs_power_and_a_gate() {
    let mut c = BCircuit::new();
    let a = c.add_input("A", false);
    assert!(!c.is_active());
    assert_eq!(c.set_component_state(a, true), Err(CircuitError::NotPoweredOn));
    assert_eq!(c.state(a), Some(false));
    c.power_on();
    assert!(c.is_active());
    assert_eq!(c.set_component_state(9, true), Err(CircuitError::UnknownId(9)));
    assert_eq!(c.set_component_state(a, true), Ok(()));
    assert_eq!(c.state(a), Some(true));
    assert_eq!(c.state(9), None);
}

#[test]
fn pulse_clock_cases() {
    let mut c = BCircuit::new();
    assert_eq!(c.pulse_clock(), Ok(()));
    c.clock(5);
    assert_eq!(c.get_clk_id(), Some(5));
    assert_eq!(c.pulse_clock(), Err(CircuitError::UnknownId(5)));
    let clk = c.add_input("clk", false);
    c.clock(clk);
    assert_eq!(c.pulse_clock(), Err(CircuitError::NotPoweredOn));
    c.power_on();
    assert_eq!(c.pulse_clock(), Ok(()));
    assert_eq!(c.state(clk), Some(false));
}

#[test]
fn identifiers_are_not_used_again() {
    let mut c = BCircuit::new();
    let a = c.add_input("A", false);
    assert_eq!(c.input_id("A"), Some(a));
    assert_eq!(c.input_id("B"), None);
    let b = c.add_component("AND", "").unwrap();
    assert_eq!((a, b), (1, 2));
    c.remove_component(a).unwrap();
    assert!(c.add_component("nothing", "").is_err());
    assert_eq!(c.add_input("A", false), 4);
    assert_eq!(c.input_id("A"), Some(4));
    assert_eq!(c.last_id(), 4);
    assert_eq!(c.new_id(), 5);
    assert_eq!(c.all_inputs_and_states(), vec![4]);
    c.clear_circuit();
    assert_eq!(c.add_input("A", false), 1);
}

#[test]
fn drivers_leave_out_the_clock() {
    let mut c = BCircuit::new();
    let a = c.add_input("A", false);
    let x = c.add_component("AND", "").unwrap();
    let q = c.add_component("JK", "Q").unwrap();
    let clk = c.add_input("clk", false);
    assert_eq!(c.all_inputs_and_states(), vec![a, q, clk]);
    c.clock(clk);
    assert_eq!(c.all_inputs_and_states(), vec![a, q]);
    assert!(c.track_output(x));
    assert!(c.track_output(x));
    assert!(!c.track_output(77));
    assert_eq!(c.outputs(), &vec![x]);
}

#[test]
fn registry_overwrites_by_name() {
    let mut c = BCircuit::new();
    let names: Vec<&str> = c.definitions().iter().map(|d| d.name.as_str()).collect();
    assert_eq!(names, vec!["Input", "NAND", "AND", "OR", "XOR", "NOT", "BFR", "JK"]);
    let pins: Vec<u16> = c.definitions().iter().map(|d| d.default_inputs).collect();
    assert_eq!(pins, vec![0, 2, 2, 2, 2, 1, 1, 2]);
    let symbols: Vec<&str> = c.definitions().iter().map(|d| d.symbol.as_str()).collect();
    assert_eq!(symbols, vec!["", "!.", ".", "+", "+", "!", "", "JK"]);
    c.define_gate(ComponentDefParams {
        name: "AND".to_string(),
        label: String::new(),
        comp_type: CompType::Combinational,
        eval: BinaryLogicReducer::And,
        default_inputs: 2,
        symbol: "&".to_string(),
    });
    c.define_gate(ComponentDefParams {
        name: "NOR".to_string(),
        label: String::new(),
        comp_type: CompType::Combinational,
        eval: BinaryLogicReducer::Or,
        default_inputs: 2,
        symbol: "v".to_string(),
    });
    assert_eq!(c.definitions().len(), 9);
    assert_eq!(c.definitions()[2].symbol, "&");
    let g = c.make_component("AND", "g").unwrap();
    assert_eq!((g.symbol.as_str(), g.label.as_str(), g.id), ("&", "g", UNASSIGNED));
    assert_eq!(
        c.make_component("and", "g").err().map(|e| e.message()),
        Some("Component type not defined and".to_string())
    );
}

#[test]
fn labels_and_formulas() {
    let mut c = BCircuit::new();
    let a = c.add_input("A", false);
    let q = c.add_component("JK", "Q").unwrap();
    let n = c.add_component("NOT", "").unwrap();
    let x = c.add_component("OR", "").unwrap();
    assert_eq!(c.get_component(&q).unwrap().state_expr, "Q(t)");
    c.connect(n, 1, a).unwrap();
    c.connect(x, 1, n).unwrap();
    c.connect(x, 2, q).unwrap();
    assert_eq!(c.get_component(&x).unwrap().state_expr, "!A+Q(t)");
    c.set_component_label(a, "in").unwrap();
    c.set_component_label(q, "S").unwrap();
    assert_eq!(c.get_component(&x).unwrap().state_expr, "!in+S(t)");
    assert_eq!(c.get_component(&x).unwrap().input_pin_exprs, strings(&["", "!in", "S(t)"]));
    assert_eq!(c.set_component_label(44, "x"), Err(CircuitError::UnknownId(44)));
    c.disconnect(x, 1, n).unwrap();
    assert_eq!(c.get_component(&x).unwrap().state_expr, "+S(t)");
    c.compile();
    assert_eq!(c.get_component(&x).unwrap().state_expr, "+S(t)");
}

#[test]
fn form_expr_by_number_of_pins() {
    let sym = "&".to_string();
    assert_eq!(form_expr(&strings(&[]), &sym), "()");
    assert_eq!(form_expr(&strings(&["clk"]), &sym), "()");
    assert_eq!(form_expr(&strings(&["clk", "a"]), &sym), "&a");
    assert_eq!(form_expr(&strings(&["clk", "a", "b"]), &sym), "a&b");
    assert_eq!(form_expr(&strings(&["clk", "a", "b", "c"]), &sym), "(a&b&c)");
}

#[test]
fn strings_in_order() {
    assert!(str_leq("", "a"));
    assert!(str_leq("a", "a"));
    assert!(str_leq("a", "ab"));
    assert!(!str_leq("ab", "a"));
    assert!(str_leq("Z", "a"));
    assert!(!str_leq("b", "a"));
}

#[test]
fn reducers() {
    let pins = |a: bool, b: bool| vec![false, a, b];
    for a in [false, true] {
        for b in [false, true] {
            assert_eq!(BinaryLogicReducer::Nand.eval(&pins(a, b), false), !(a && b));
            assert_eq!(BinaryLogicReducer::And.eval(&pins(a, b), true), a && b);
            assert_eq!(BinaryLogicReducer::Or.eval(&pins(a, b), false), a || b);
            assert_eq!(BinaryLogicReducer::Xor.eval(&pins(a, b), false), a != b);
            assert_eq!(BinaryLogicReducer::Not.eval(&pins(a, b), false), !a);
            assert_eq!(BinaryLogicReducer::Buffer.eval(&pins(a, b), true), a);
            for q in [false, true] {
                assert_eq!(BinaryLogicReducer::Hold.eval(&pins(a, b), q), q);
                assert_eq!(BinaryLogicReducer::JK.eval(&pins(a, b), q), (a && !q) || (!b && q));
            }
        }
    }
    // a pin that is not there reads low
    assert_eq!(BinaryLogicReducer::Nand.eval(&vec![], false), true);
    assert_eq!(BinaryLogicReducer::Or.eval(&vec![false, true], false), true);
}

#[test]
fn edge_detector() {
    let mut m = ClockManager::new();
    assert!(!m.clock_triggered());
    m.push(false);
    assert!(!m.clock_triggered());
    m.push(true);
    assert!(m.clock_triggered());
    m.push(true);
    assert!(m.clock_triggered());
    m.push(false);
    assert!(!m.clock_triggered());
    m.push(true);
    m.reset_clock_hist();
    assert!(!m.clock_triggered());
    assert_eq!((m.curr, m.last), (false, false));
    m.clk_expr("clk".to_string());
    assert_eq!(m.expr, "clk");
}

#[test]
fn gates_alone() {
    let mut g = Gate::from_params(ComponentDefParams {
        name: "NOT".to_string(),
        label: "n".to_string(),
        comp_type: CompType::Combinational,
        eval: BinaryLogicReducer::Not,
        default_inputs: 1,
        symbol: "!".to_string(),
    });
    assert_eq!(g.num_inputs(), 2);
    assert_eq!(g.state, true);
    assert_eq!(g.id, UNASSIGNED);
    assert!(!g.has_independent_state());
    assert!(g.clock_manager.is_none());
    let mut i = Gate::make_input("A", true);
    i.id = 7;
    assert!(i.has_independent_state());
    assert_eq!((i.name.as_str(), i.state_expr.as_str(), i.num_inputs()), ("Input", "A", 1));
    g.link_output_receiver(3, 1);
    g.link_output_receiver(3, 1);
    g.link_output_receiver(3, 2);
    assert_eq!(g.get_output_receivers(), &vec![(3, 1), (3, 2)]);
    assert!(g.drives(3, 2));
    assert_eq!(g.unlink_output_receiver(3, 1), Ok(()));
    assert_eq!(g.unlink_output_receiver(3, 1), Err(CircuitError::EdgeAbsent(UNASSIGNED, 3, 1)));
    assert_eq!(g.get_output_receivers(), &vec![(3, 2)]);
    assert_eq!(g.set_input_pin_connection(2, &i), Err(CircuitError::PinOutOfRange(2, 2)));
    assert_eq!(g.set_input_pin_connection(1, &i), Ok(()));
    assert_eq!((g.input_pin_values[1], g.input_pin_sources[1]), (true, 7));
    assert_eq!(g.input_pin_exprs[1], "A");
    assert_eq!(g.set_input_pin_connection(1, &i), Err(CircuitError::PinAlreadyDriven(UNASSIGNED, 1)));
    assert!(g.evaluate());
    assert_eq!(g.state, false);
    assert!(!g.evaluate());
    assert!(g.refresh_expr());
    assert_eq!(g.state_expr, "!A");
    assert!(!g.refresh_expr());
    assert_eq!(g.clear_input_pin_connection(5), Err(CircuitError::PinOutOfRange(5, 2)));
    assert_eq!(g.clear_input_pin_connection(1), Ok(()));
    assert_eq!((g.input_pin_values[1], g.input_pin_sources[1]), (false, NULL));
    assert_eq!(g.input_pin_exprs[1], "");
    g.set_pin_val(1, true);
    g.set_pin_expr(1, "x");
    g.set_state(true);
    assert_eq!(
        g.describe(),
        "NOT (2 inputs) - Symbol: \x1b[33m!\x1b[0m - State: \x1b[32mON\x1b[0m\n  \nx"
    );
    assert_eq!(
        i.describe(),
        "Input (1 input) - Symbol: \x1b[33mA\x1b[0m - State: \x1b[32mON\x1b[0m\n"
    );
}

#[test]
fn flip_flop_sees_the_clock_pin_only() {
    let mut q = Gate::from_params(ComponentDefParams {
        name: "JK".to_string(),
        label: "Q".to_string(),
        comp_type: CompType::Sequential,
        eval: BinaryLogicReducer::JK,
        default_inputs: 2,
        symbol: "JK".to_string(),
    });
    assert_eq!(q.state_expr, "Q(t)");
    q.set_pin_val(1, true);
    q.set_pin_val(2, true);
    assert!(!q.evaluate());
    q.set_pin_val(CLOCK_PIN, true);
    assert!(q.clock_manager.as_ref().unwrap().clock_triggered());
    assert!(q.evaluate());
    assert!(q.state);
    // the edge is used up
    assert!(!q.evaluate());
    q.set_pin_val(CLOCK_PIN, false);
    assert!(!q.evaluate());
    q.set_pin_val(CLOCK_PIN, true);
    assert!(q.evaluate());
    assert!(!q.state);
}

#[test]
fn failures_in_words() {
    assert_eq!(CircuitError::UnknownId(-3).message(), "No component with id_-3");
    assert_eq!(
        CircuitError::PinOutOfRange(3, 2).message(),
        "There are only 2 pins, can't access 3"
    );
    assert_eq!(
        CircuitError::EdgeAbsent(1, 20, 0).message(),
        "No connection b/w id_1 and id_20 pin_0"
    );
    assert_eq!(
        CircuitError::SelfConnectionRejected(4).message(),
        "id_4 Self connection is not supported, please use a buffer."
    );
    assert_eq!(CircuitError::PinAlreadyDriven(4, 1).message(), "Please disconnect it first!");
    assert_eq!(CircuitError::NotPoweredOn.message(), "Power on the circuit first!");
    assert_eq!(CircuitError::PropagationLimitExceeded.message(), "Propagation limit exceeded");
    assert_eq!(
        CircuitError::RemovalUnsettled(12).message(),
        "Could not remove id_12 completely: Propagation limit exceeded"
    );
}

#[test]
fn table_drawn() {
    let mut t = Table::<char>::new();
    t.set_columns(strings(&["A", "Q1"])).unwrap();
    t.set_rows(vec![vec!['0', '1'], vec!['1']]).unwrap();
    let want = "|\u{af}\u{af}\u{af}\u{af}\u{af}\u{af}\u{af}\u{af}\u{af}\u{af}\u{af}\u{af}|\n\
                |  \x1b[33mA\x1b[0m  |  \x1b[33mQ1\x1b[0m  |\n\
                |------------|\n\
                |  0  |  1   |\n\
                |  1  |     |\n\
                |____________|\n";
    assert_eq!(t.render(), want);
    assert_eq!(Table::<char>::new().render(), "||\n|\n||\n||\n");
}

#[test]
fn queue_does_not_repeat_its_tail() {
    let mut q: VecDeque<i32> = VecDeque::new();
    for id in [4, 4, 7, 4, 4, 4, 7, 7] {
        enqueue_id(&mut q, id);
    }
    assert_eq!(q, VecDeque::from(vec![4, 7, 4, 7]));
}

#[test]
fn gates_are_settled_after_edits() {
    let mut c = BCircuit::new();
    c.power_on();
    let a = c.add_input("A", true);
    let b = c.add_input("B", false);
    let x = c.add_component("XOR", "").unwrap();
    let n = c.add_component("NAND", "").unwrap();
    let o = c.add_component("OR", "").unwrap();
    c.connect(x, 1, a).unwrap();
    c.connect(x, 2, b).unwrap();
    c.connect(n, 1, x).unwrap();
    c.connect(n, 2, a).unwrap();
    c.connect(o, 1, n).unwrap();
    c.connect(o, 2, x).unwrap();
    c.disconnect(n, 2, a).unwrap();
    c.set_component_state(b, true).unwrap();
    for g in c.components().values() {
        if g.comp_type == CompType::Combinational {
            assert_eq!(g.state, g.eval.eval(&g.input_pin_values, g.state));
        }
        for (p, src) in g.input_pin_sources.iter().enumerate() {
            if *src != NULL {
                assert_eq!(Some(g.input_pin_values[p]), c.state(*src));
            }
        }
    }
}

#[test]
fn removal_that_starts_an_oscillation() {
    let mut c = BCircuit::new();
    c.power_on();
    let a = c.add_input("A", true);
    let x = c.add_component("OR", "").unwrap();
    let n1 = c.add_component("NOT", "").unwrap();
    let n2 = c.add_component("NOT", "").unwrap();
    let n3 = c.add_component("NOT", "").unwrap();
    c.connect(x, 1, a).unwrap();
    c.connect(n1, 1, x).unwrap();
    c.connect(n2, 1, n1).unwrap();
    c.connect(n3, 1, n2).unwrap();
    c.connect(x, 2, n3).unwrap();
    assert_eq!(c.state(x), Some(true));
    // without the input the gates form a ring that inverts three times
    assert_eq!(c.remove_component(a), Err(CircuitError::RemovalUnsettled(a)));
    assert_eq!(c.state(a), None);
    assert_eq!(c.get_component(&x).unwrap().input_pin_sources[1], NULL);
}

fn majority_table() -> Vec<bool> {
    // row number: bit 0 is the output, bits 1 to 3 are the pins
    (0..16u32).map(|row| (row >> 1).count_ones() >= 2).collect()
}

#[test]
fn lookup_reducer_reads_its_table() {
    let maj = BinaryLogicReducer::Lookup(majority_table());
    for a in [false, true] {
        for b in [false, true] {
            for c in [false, true] {
                let ones = [a, b, c].iter().filter(|x| **x).count();
                for q in [false, true] {
                    assert_eq!(maj.eval(&vec![true, a, b, c], q), ones >= 2);
                }
            }
        }
    }
    // rows beyond the table, and pins that are not there, read low
    assert_eq!(maj.eval(&vec![false, true, true, false, true], false), false);
    assert_eq!(maj.eval(&vec![false, true, true], true), true);
    assert_eq!(maj.eval(&vec![], true), false);
    // a toggle: the next output is the inverse of the current one
    let toggle = BinaryLogicReducer::Lookup(vec![true, false]);
    assert_eq!(toggle.eval(&vec![false], false), true);
    assert_eq!(toggle.eval(&vec![false], true), false);
    assert_eq!(toggle.eval(&vec![false, true], false), false);
    assert_eq!(BinaryLogicReducer::Lookup(vec![]).eval(&vec![false, true], true), false);
    assert_eq!(maj.clone(), maj);
}

#[test]
fn registered_kind_with_three_pins() {
    let mut c = BCircuit::new();
    c.power_on();
    c.define_gate(ComponentDefParams {
        name: "MAJ".to_string(),
        label: String::new(),
        comp_type: CompType::Combinational,
        eval: BinaryLogicReducer::Lookup(majority_table()),
        default_inputs: 3,
        symbol: "#".to_string(),
    });
    let a = c.add_input("a", true);
    let b = c.add_input("b", false);
    let d = c.add_input("c", true);
    let m = c.add_component("MAJ", "m").unwrap();
    assert_eq!(c.state(m), Some(false));
    c.connect(m, 1, a).unwrap();
    c.connect(m, 2, b).unwrap();
    c.connect(m, 3, d).unwrap();
    assert_eq!(c.state(m), Some(true));
    assert_eq!(c.get_component(&m).unwrap().state_expr, "(a#b#c)");
    c.set_component_state(a, false).unwrap();
    assert_eq!(c.state(m), Some(false));
    c.track_output(m);
    let t = c.gen_truth_table();
    let rows: Vec<String> = t.rows.iter().map(|r| r.iter().collect()).collect();
    assert_eq!(rows, vec!["0000", "0010", "0100", "0111", "1000", "1011", "1101", "1111"]);
}

#[test]
fn wiring_without_propagation_waits_for_a_traversal() {
    let mut c = BCircuit::new();
    let a = c.add_input("A", true);
    let n = c.add_component("NOT", "").unwrap();
    let m = c.add_component("NOT", "").unwrap();
    assert_eq!(c.do_connect(n, 1, a), Ok(()));
    assert_eq!(c.do_connect(m, 1, n), Ok(()));
    // the pins hold the new values, the outputs are not evaluated yet
    assert_eq!(c.get_component(&n).unwrap().input_pin_values[1], true);
    assert_eq!((c.state(n), c.state(m)), (Some(true), Some(true)));
    assert!(c.graph_act(ComponentActor::UpdateState, &vec![n]));
    assert_eq!((c.state(n), c.state(m)), (Some(false), Some(true)));
    assert_eq!(c.get_component(&m).unwrap().state_expr, "");
    assert!(c.graph_act(ComponentActor::SetExpressions, &vec![a, a, n]));
    assert_eq!(c.get_component(&m).unwrap().state_expr, "!!A");
    assert_eq!(c.do_disconnect(n, 1, a), Ok(()));
    assert_eq!(c.state(n), Some(false));
    assert!(c.graph_act(ComponentActor::PowerOn, &vec![a, 99]));
    assert_eq!(c.state(n), Some(false));
    assert_eq!(c.refresh(), Ok(()));
    assert_eq!(c.state(n), Some(false));
    assert!(c.graph_act(ComponentActor::UpdateState, &vec![n]));
    assert_eq!((c.state(n), c.state(m)), (Some(true), Some(false)));
}

#[test]
fn visits_on_a_store_of_gates() {
    let mut store: HashMap<i32, Gate> = HashMap::new();
    let mut a = Gate::make_input("A", true);
    a.id = 1;
    a.link_output_receiver(2, 1);
    let mut n = Gate::from_params(ComponentDefParams {
        name: "NOT".to_string(),
        label: String::new(),
        comp_type: CompType::Combinational,
        eval: BinaryLogicReducer::Not,
        default_inputs: 1,
        symbol: "!".to_string(),
    });
    n.id = 2;
    n.input_pin_sources[1] = 1;
    n.link_output_receiver(7, 0);
    store.insert(1, a);
    store.insert(2, n);
    let mut q = VecDeque::new();
    // an unchanged input stops an updating visit, and passes a forced one on
    update_component_state(1, &mut store, &mut q);
    assert!(q.is_empty());
    assert_eq!(store[&2].input_pin_values[1], false);
    power_on_component(1, &mut store, &mut q);
    assert_eq!(q, VecDeque::from(vec![2]));
    assert_eq!(store[&2].input_pin_values[1], true);
    q.pop_front();
    update_component_state(2, &mut store, &mut q);
    assert_eq!(store[&2].state, false);
    // the receiver is not in the store: nothing is written, but it is queued
    assert_eq!(q, VecDeque::from(vec![7]));
    q.clear();
    set_expressions(1, &mut store, &mut q);
    assert!(q.is_empty());
    store.get_mut(&1).unwrap().label = "in".to_string();
    set_expressions(1, &mut store, &mut q);
    assert_eq!(store[&2].input_pin_exprs[1], "in");
    set_expressions(9, &mut store, &mut q);
    assert_eq!(q, VecDeque::from(vec![2]));
    // a compiling visit writes and schedules though nothing changed
    q.clear();
    store.get_mut(&2).unwrap().input_pin_exprs[1] = "old".to_string();
    store.get_mut(&2).unwrap().state_expr = "old".to_string();
    set_expressions(1, &mut store, &mut q);
    assert!(q.is_empty());
    assert_eq!(store[&2].input_pin_exprs[1], "old");
    compile_component(1, &mut store, &mut q);
    assert_eq!(q, VecDeque::from(vec![2]));
    assert_eq!(store[&1].state_expr, "in");
    assert_eq!(store[&2].input_pin_exprs[1], "in");
    q.pop_front();
    compile_component(2, &mut store, &mut q);
    assert_eq!(store[&2].state_expr, "!in");
    assert_eq!(q, VecDeque::from(vec![7]));
}

#[test]
fn compile_gives_every_gate_reached_its_formula() {
    let mut c = BCircuit::new();
    let a = c.add_input("A", false);
    let b = c.add_input("B", true);
    let n = c.add_component("NOT", "n").unwrap();
    let g = c.add_component("AND", "g").unwrap();
    let alone = c.add_component("OR", "alone").unwrap();
    c.connect(n, 1, a).unwrap();
    c.connect(g, 1, n).unwrap();
    c.connect(g, 2, b).unwrap();
    let states = (c.state(a), c.state(b), c.state(n), c.state(g));
    c.compile();
    assert_eq!(c.get_component(&a).unwrap().state_expr, "A");
    assert_eq!(c.get_component(&n).unwrap().state_expr, "!A");
    assert_eq!(c.get_component(&n).unwrap().input_pin_exprs[1], "A");
    assert_eq!(c.get_component(&g).unwrap().state_expr, "!A.B");
    assert_eq!(c.get_component(&g).unwrap().input_pin_exprs, strings(&["", "!A", "B"]));
    assert_eq!((c.state(a), c.state(b), c.state(n), c.state(g)), states);
    assert_eq!(c.get_component(&g).unwrap().input_pin_sources, vec![NULL, n, b]);
    assert_eq!(c.get_component(&a).unwrap().output_recvlist, vec![(n, 1)]);
    // no driver reaches this one
    let before = c.get_component(&alone).unwrap().state_expr.clone();
    c.compile();
    assert_eq!(c.get_component(&alone).unwrap().state_expr, before);
    assert_eq!(c.get_component(&g).unwrap().state_expr, "!A.B");
}

#[test]
fn compile_round_a_flip_flop_that_feeds_itself() {
    // Q drives an inverter that drives both pins of Q: the way round is
    // broken by the formula of Q, which is its label
    let mut c = BCircuit::new();
    let clk = c.add_input("clk", false);
    c.clock(clk);
    let q = c.add_component("JK", "Q").unwrap();
    let n = c.add_component("NOT", "n").unwrap();
    let out = c.add_component("BFR", "out").unwrap();
    c.connect(q, CLOCK_PIN, clk).unwrap();
    c.connect(n, 1, q).unwrap();
    c.connect(q, 1, n).unwrap();
    c.connect(q, 2, n).unwrap();
    c.connect(out, 1, n).unwrap();
    c.compile();
    assert_eq!(c.get_component(&q).unwrap().state_expr, "Q(t)");
    assert_eq!(c.get_component(&n).unwrap().state_expr, "!Q(t)");
    assert_eq!(c.get_component(&out).unwrap().state_expr, "!Q(t)");
    assert_eq!(c.get_component(&q).unwrap().input_pin_exprs, strings(&["clk", "!Q(t)", "!Q(t)"]));
    assert_eq!(c.get_component(&n).unwrap().input_pin_exprs, strings(&["", "Q(t)"]));
    // a new label reaches every formula behind it
    c.set_component_label(q, "R").unwrap();
    assert_eq!(c.get_component(&out).unwrap().state_expr, "!R(t)");
    c.compile();
    assert_eq!(c.get_component(&out).unwrap().state_expr, "!R(t)");
    assert_eq!(c.get_component(&q).unwrap().input_pin_exprs, strings(&["clk", "!R(t)", "!R(t)"]));
}

#[test]
fn a_wire_laid_with_success_need_not_come_off_again() {
    // a ring that swings while `en` is high and `hold` has no other input
    let mut c = BCircuit::new();
    c.power_on();
    let en = c.add_input("en", false);
    let a = c.add_input("a", true);
    let hold = c.add_component("OR", "hold").unwrap();
    let inv = c.add_component("NOT", "inv").unwrap();
    let buf = c.add_component("BFR", "buf").unwrap();
    let back = c.add_component("AND", "back").unwrap();
    c.connect(inv, 1, hold).unwrap();
    c.connect(buf, 1, inv).unwrap();
    c.connect(back, 1, buf).unwrap();
    c.connect(back, 2, en).unwrap();
    c.connect(hold, 2, back).unwrap();
    let ring = |c: &BCircuit| (c.state(hold), c.state(inv), c.state(buf), c.state(back));
    assert_eq!(ring(&c), (Some(false), Some(true), Some(true), Some(false)));
    assert_eq!(c.set_component_state(en, true), Err(CircuitError::PropagationLimitExceeded));
    assert_eq!(c.state(en), Some(true));
    // the high input stops the ring
    assert_eq!(c.connect(hold, 1, a), Ok(()));
    assert_eq!(ring(&c), (Some(true), Some(false), Some(false), Some(false)));
    // without it the ring swings again: the cut fails and the wire stays
    assert_eq!(c.disconnect(hold, 1, a), Err(CircuitError::PropagationLimitExceeded));
    assert_eq!(c.get_component(&hold).unwrap().input_pin_sources, vec![NULL, a, back]);
    assert!(c.get_component(&a).unwrap().drives(hold, 1));
}
