use bsim::circuit::BCircuit;
use bsim::logic_units::{
    bind_name, find_bound, get_logic_unit, traverse_add, LogicUnitError, NodeType,
};
use bsim::types::CircuitError;

fn lit(name: &str) -> NodeType {
    NodeType::Literal(name.to_string())
}

fn op(sym: char, operands: Vec<NodeType>) -> NodeType {
    NodeType::Operator(sym, operands)
}

#[test]
fn module_of_one_assignment() {
    // f = a.b + !a
    let tree = op(
        '=',
        vec![lit("f"), op('+', vec![op('.', vec![lit("a"), lit("b")]), op('!', vec![lit("a")])])],
    );
    let mut c = BCircuit::new();
    c.power_on();
    let unit = get_logic_unit(&mut c, &vec![tree]).ok().unwrap();
    assert_eq!(unit.outputs.len(), 1);
    assert_eq!(unit.outputs[0].0, "f");
    let names: Vec<&str> = unit.inputs.iter().map(|e| e.0.as_str()).collect();
    assert_eq!(names, vec!["a", "b"]);
    // buffer f, OR, AND, buffer a, buffer b, NOT, in the order of making
    assert_eq!(unit.contents, vec![1, 2, 3, 4, 5, 6]);
    let f = unit.outputs[0].1;
    let a = find_bound(&unit.inputs, "a").unwrap();
    let b = find_bound(&unit.inputs, "b").unwrap();
    assert_eq!((f, a, b), (1, 4, 5));
    assert_eq!(find_bound(&unit.inputs, "c"), None);
    assert_eq!(c.get_component(&f).unwrap().name, "BFR");
    // the inputs are buffers with nothing behind them: both low
    assert_eq!(c.state(f), Some(true));
    for (va, vb, want) in [(false, false, true), (true, false, false), (true, true, true)] {
        c.set_component_state(a, va).unwrap();
        c.set_component_state(b, vb).unwrap();
        assert_eq!(c.state(f), Some(want));
    }
}

#[test]
fn module_shares_inputs_between_assignments() {
    let first = op('=', vec![lit("x"), op('*', vec![lit("p"), lit("q")])]);
    let second = op('=', vec![lit("y"), op('.', vec![lit("q"), lit("p")])]);
    let mut c = BCircuit::new();
    let unit = get_logic_unit(&mut c, &vec![first, second]).ok().unwrap();
    assert_eq!(unit.inputs.len(), 2);
    assert_eq!(unit.outputs.len(), 2);
    assert_eq!(unit.contents.len(), 6);
    assert_eq!(c.components().len(), 6);
}

#[test]
fn module_failures() {
    let mut c = BCircuit::new();
    assert!(matches!(get_logic_unit(&mut c, &vec![]), Err(LogicUnitError::NoOutputs)));
    assert!(matches!(
        get_logic_unit(&mut c, &vec![op('!', vec![lit("a")])]),
        Err(LogicUnitError::NoOutputs)
    ));
    assert!(matches!(
        get_logic_unit(&mut c, &vec![op('=', vec![op('!', vec![lit("a")]), lit("b")])]),
        Err(LogicUnitError::LhsNotLabel)
    ));
    assert!(matches!(
        get_logic_unit(&mut c, &vec![op('=', vec![lit("f"), op('/', vec![lit("a"), lit("b")])])]),
        Err(LogicUnitError::UndefinedOperator('/'))
    ));
    assert!(matches!(
        get_logic_unit(&mut c, &vec![op('=', vec![lit("f"), op('+', vec![lit("a")])])]),
        Err(LogicUnitError::MissingOperand('+'))
    ));
    assert!(matches!(
        get_logic_unit(&mut c, &vec![op('=', vec![lit("f")])]),
        Err(LogicUnitError::MissingOperand('='))
    ));
}

#[test]
fn module_reports_what_the_circuit_refuses() {
    let mut c = BCircuit::new();
    c.clear_circuit();
    let mut inputs = Vec::new();
    let mut outputs = Vec::new();
    let mut all = Vec::new();
    // a name on both sides: the buffer of the output would drive itself
    bind_name(&mut inputs, "f", 1);
    let r = traverse_add(
        &op('=', vec![lit("f"), lit("f")]),
        &mut c,
        &mut inputs,
        &mut outputs,
        &mut all,
    );
    assert!(matches!(
        r,
        Err(LogicUnitError::Circuit(CircuitError::SelfConnectionRejected(1)))
    ));
    assert_eq!(all, vec![1]);
    bind_name(&mut inputs, "f", 9);
    assert_eq!(inputs.len(), 1);
    assert_eq!(find_bound(&inputs, "f"), Some(9));
}
