use bsim::circuit::BCircuit;
use bsim::types::{CLOCK_PIN, NULL};

#[test]
fn add_component() {
    let mut c = BCircuit::new();
    c.power_on();
    let a = c.add_component("AND", "A").unwrap();
    let b = c.add_component("JK", "Q1").unwrap();
    assert!(c.get_component(&a).is_some());
    assert!(c.get_component(&b).is_some());
    assert!(c.get_component(&a).unwrap().name == "AND");

    assert!(c
        .add_component("GIBBERISH", "A")
        .is_err_and(|a| a.message().contains("GIBBERISH")));
}

#[test]
fn connect_disconnect() {
    let mut c = BCircuit::new();
    c.power_on();
    let a = c.add_input("A", true);
    let clk = c.add_input("CLK", false);
    let q1 = c.add_component("JK", "Q1").unwrap();

    assert!(c.connect(q1, CLOCK_PIN, clk).is_ok());
    assert!(c.get_component(&q1).unwrap().input_pin_sources[CLOCK_PIN] == clk);
    assert!(c
        .get_component(&clk)
        .unwrap()
        .get_output_receivers()
        .contains(&(q1, CLOCK_PIN)));

    assert!(c.connect(q1, 1, a).is_ok());
    assert!(c.get_component(&q1).unwrap().input_pin_sources[1] == a);
    assert!(c
        .get_component(&a)
        .unwrap()
        .get_output_receivers()
        .contains(&(q1, 1)));

    assert!(c.connect(q1, 2, a).is_ok());
    assert!(c.get_component(&q1).unwrap().input_pin_sources[2] == a);
    assert!(c
        .get_component(&a)
        .unwrap()
        .get_output_receivers()
        .contains(&(q1, 2)));

    assert!(c.connect(q1, 3, a).is_err());
    assert_eq!(c.get_component(&a).unwrap().get_output_receivers().len(), 2);

    // disconnect input pin
    assert!(c.disconnect(q1, 1, a).is_ok());
    assert!(c.get_component(&q1).unwrap().input_pin_sources[1] == NULL);
    assert!(!c
        .get_component(&a)
        .unwrap()
        .get_output_receivers()
        .contains(&(q1, 1)));

    // disconnect CLOCK
    assert!(c.disconnect(q1, CLOCK_PIN, clk).is_ok());
    assert!(c.get_component(&q1).unwrap().input_pin_sources[CLOCK_PIN] == NULL);
    assert!(!c
        .get_component(&a)
        .unwrap()
        .get_output_receivers()
        .contains(&(q1, CLOCK_PIN)));

    // connecting to self
    let q2 = c.add_component("JK", "Q2").unwrap();
    assert!(c.connect(q2, 1, q2).is_err());
}

#[test]
fn state_change_ripple() {
    let mut c = BCircuit::new();
    c.power_on();
    let i = c.add_input("A", false);
    let n1 = c.add_component("NOT", "B").unwrap();
    let n2 = c.add_component("NOT", "C").unwrap();

    c.connect(n1, 1, i).unwrap();
    c.connect(n2, 1, n1).unwrap();

    assert_eq!(c.state(i).unwrap(), false);
    assert_eq!(c.state(n1).unwrap(), true);
    assert_eq!(c.state(n2).unwrap(), false);

    c.set_component_state(i, true).unwrap();

    assert_eq!(c.state(i).unwrap(), true);
    assert_eq!(c.state(n1).unwrap(), false);
    assert_eq!(c.state(n2).unwrap(), true);

    // a pin whose source is removed reads low, so the inverter behind it
    // turns on
    c.remove_component(i).unwrap();
    assert_eq!(c.state(n1).unwrap(), true);
    assert_eq!(c.state(n2).unwrap(), false);

    c.disconnect(n2, 1, n1).unwrap();
    assert_eq!(c.state(n2).unwrap(), true);
}

#[test]
fn clock_change_ripple() {
    let mut c = BCircuit::new();

    // 2 bit async up counter
    let one = c.add_input("1", true);
    let clk = c.add_input("clk", false);
    let q = c.add_component("JK", "Q1").unwrap();
    let qq = c.add_component("JK", "Q2").unwrap();
    let n = c.add_component("NOT", "!Q1").unwrap();

    c.connect(q, 1, one).unwrap();
    c.connect(q, 2, one).unwrap();

    c.connect(qq, 1, one).unwrap();
    c.connect(qq, 2, one).unwrap();

    c.connect(q, CLOCK_PIN, clk).unwrap();
    c.connect(qq, CLOCK_PIN, n).unwrap();
    c.connect(n, 1, q).unwrap();

    c.clock(clk);

    c.power_on();

    assert_eq!((c.state(q).unwrap(), c.state(qq).unwrap()), (false, false));
    c.pulse_clock().unwrap();
    assert_eq!((c.state(q).unwrap(), c.state(qq).unwrap()), (true, false));
    c.pulse_clock().unwrap();
    assert_eq!((c.state(q).unwrap(), c.state(qq).unwrap()), (false, true));
    c.pulse_clock().unwrap();
    assert_eq!((c.state(q).unwrap(), c.state(qq).unwrap()), (true, true));
    c.pulse_clock().unwrap();
    assert_eq!((c.state(q).unwrap(), c.state(qq).unwrap()), (false, false));
}

#[test]
fn remove_component() {
    let mut c = BCircuit::new();
    c.power_on();
    let i = c.add_input("A", false);
    let n1 = c.add_component("NOT", "B").unwrap();
    let n2 = c.add_component("NOT", "C").unwrap();

    c.connect(n1, 1, i).unwrap();
    c.connect(n2, 1, n1).unwrap();
    assert_eq!(c.state(n2).unwrap(), false);
    c.remove_component(n1).unwrap();
    assert_eq!(c.get_component(&n1).is_none(), true);
    assert_eq!(c.state(n2).unwrap(), true);
    assert_eq!(c.get_component(&n2).unwrap().input_pin_sources[1], NULL);
}

#[test]
fn sample_comb_ckt() {
    let mut c = BCircuit::new();
    let i1 = c.add_input("A", !false);
    let i2 = c.add_input("B", false);
    let i3 = c.add_input("C", true);

    let n1 = c.add_component("NOT", "not1").unwrap();
    let n2 = c.add_component("NOT", "not2").unwrap();
    let or = c.add_component("OR", "F1").unwrap();

    let a1 = c.add_component("AND", "AB").unwrap();
    let a2 = c.add_component("AND", "").unwrap();
    let a3 = c.add_component("AND", "").unwrap();

    c.connect(n1, 1, i1).unwrap();
    c.connect(n2, 1, i2).unwrap();

    c.connect(a1, 1, i1).unwrap();
    c.connect(a1, 2, i2).unwrap();

    c.connect(a2, 1, n1).unwrap();
    c.connect(a2, 2, n2).unwrap();

    c.connect(a3, 1, a2).unwrap();
    c.connect(a3, 2, i3).unwrap();

    c.connect(or, 1, a3).unwrap();
    c.connect(or, 2, a1).unwrap();

    c.track_output(or);
    c.compile();
    c.power_on();
    println!("{}", c.get_component(&or).unwrap().state_expr);
    assert_eq!(c.get_component(&or).unwrap().state_expr, "!A.!B.C+A.B");
    assert_eq!(c.state(or), Some(false));
}

#[test]
fn latch() {
    let mut c = BCircuit::new();
    c.power_on();

    let q = c.add_component("NAND", "q").unwrap();
    let nq = c.add_component("NAND", "nq").unwrap();
    let is = c.add_input("S", true);
    let ir = c.add_input("R", false);

    c.connect(q, 1, is).unwrap();
    c.connect(nq, 2, ir).unwrap();

    c.connect(q, 2, nq).unwrap();
    c.connect(nq, 1, q).unwrap();

    assert_eq!((c.state(q), c.state(nq)), (Some(false), Some(true)));
}
