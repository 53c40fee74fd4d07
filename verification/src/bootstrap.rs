//! The kinds of gate that every circuit knows.

use vstd::prelude::*;
use vstd::string::*;
use crate::circuit::{register_all, BCircuit, CircuitView};
use crate::components::{ComponentDefParams, DefView};
use crate::types::{BinaryLogicReducer, CompType, ReducerView};

verus! {

/// The definition of a built-in kind: no label, and the given name,
/// category, logic, number of data pins and operator.
pub open spec fn builtin(
    name: Seq<char>,
    comp_type: CompType,
    eval: ReducerView,
    default_inputs: u16,
    symbol: Seq<char>,
) -> DefView {
    DefView { name, label: Seq::empty(), comp_type, eval, default_inputs, symbol }
}

/// The built-in kinds, in the order of their registration.
pub open spec fn builtin_defs() -> Seq<DefView> {
    seq![
        builtin("Input"@, CompType::Input, ReducerView::Hold, 0, ""@),
        builtin("NAND"@, CompType::Combinational, ReducerView::Nand, 2, "!."@),
        builtin("AND"@, CompType::Combinational, ReducerView::And, 2, "."@),
        builtin("OR"@, CompType::Combinational, ReducerView::Or, 2, "+"@),
        builtin("XOR"@, CompType::Combinational, ReducerView::Xor, 2, "+"@),
        builtin("NOT"@, CompType::Combinational, ReducerView::Not, 1, "!"@),
        builtin("BFR"@, CompType::Combinational, ReducerView::Buffer, 1, ""@),
        builtin("JK"@, CompType::Sequential, ReducerView::JK, 2, "JK"@),
    ]
}

fn make_builtin(
    name: &str,
    comp_type: CompType,
    eval: BinaryLogicReducer,
    default_inputs: u16,
    symbol: &str,
) -> (r: ComponentDefParams)
    ensures
        r@ == builtin(name@, comp_type, eval@, default_inputs, symbol@),
{
    ComponentDefParams {
        name: String::from_str(name),
        label: String::new(),
        comp_type,
        eval,
        default_inputs,
        symbol: String::from_str(symbol),
    }
}

/// Registers the built-in kinds with `c`.
pub fn bootstrap_ckt(c: &mut BCircuit)
    ensures
        final(c)@ == (CircuitView {
            defs: register_all(old(c)@.defs, builtin_defs()),
            ..old(c)@
        }),
{
    let mut kinds: Vec<ComponentDefParams> = Vec::new();
    kinds.push(make_builtin("Input", CompType::Input, BinaryLogicReducer::Hold, 0, ""));
    kinds.push(make_builtin("NAND", CompType::Combinational, BinaryLogicReducer::Nand, 2, "!."));
    kinds.push(make_builtin("AND", CompType::Combinational, BinaryLogicReducer::And, 2, "."));
    kinds.push(make_builtin("OR", CompType::Combinational, BinaryLogicReducer::Or, 2, "+"));
    kinds.push(make_builtin("XOR", CompType::Combinational, BinaryLogicReducer::Xor, 2, "+"));
    kinds.push(make_builtin("NOT", CompType::Combinational, BinaryLogicReducer::Not, 1, "!"));
    kinds.push(make_builtin("BFR", CompType::Combinational, BinaryLogicReducer::Buffer, 1, ""));
    kinds.push(make_builtin("JK", CompType::Sequential, BinaryLogicReducer::JK, 2, "JK"));
    let ghost all = kinds@.map_values(|d: ComponentDefParams| d@);
    assert(all =~= builtin_defs());
    let mut i: usize = 0;
    while i < kinds.len()
        invariant
            i <= kinds.len(),
            all == kinds@.map_values(|d: ComponentDefParams| d@),
            c@ == (CircuitView {
                defs: register_all(old(c)@.defs, all.take(i as int)),
                ..old(c)@
            }),
        decreases kinds.len() - i,
    {
        proof {
            assert(all.take(i + 1).drop_last() =~= all.take(i as int));
        }
        c.define_gate(kinds[i].clone());
        i = i + 1;
    }
    assert(all.take(kinds.len() as int) =~= all);
}

} // verus!
