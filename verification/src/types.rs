//! Identifiers, pin numbers, gate categories, gate logic and the failures
//! that the circuit reports.

use vstd::prelude::*;
use vstd::string::*;
use crate::text::{decimal, decimal_string, signed, signed_string};

verus! {

/// Identifier of a gate inside one circuit.
pub type ID = i32;

/// Number of an input pin on a gate.
pub type PIN = usize;

/// Source of a pin that nothing drives.
pub const NULL: ID = -1;

/// Identifier of a gate that no circuit owns yet.
pub const UNASSIGNED: ID = -2;

/// The pin that carries the clock on sequential gates.
pub const CLOCK_PIN: PIN = 0;

/// Pin number that stands for the single output of a gate.
pub const OUTPUT_PIN: PIN = usize::MAX;

/// Upper bound on the number of gates visited by one traversal.
pub const PROPAGATION_LIMIT: usize = 5000;

/// Category of a gate.
#[derive(Clone, Copy, PartialEq, Eq, Debug, Structural)]
pub enum CompType {
    Combinational,
    Sequential,
    Input,
}

/// The pure function that gives a gate its next output from the values on
/// its pins and its current output.
///
/// A pin that the component does not have reads as `false`, so every function is
/// total on every pin vector.
#[derive(PartialEq, Eq, Debug)]
pub enum BinaryLogicReducer {
    /// Keeps the current output; the logic of externally driven gates.
    Hold,
    /// `!(pin1 && pin2)`
    Nand,
    /// `pin1 && pin2`
    And,
    /// `pin1 || pin2`
    Or,
    /// `pin1 != pin2`
    Xor,
    /// `!pin1`
    Not,
    /// `pin1`
    Buffer,
    /// `(J && !Q) || (!K && Q)` with J on pin 1, K on pin 2 and Q the
    /// current output.
    JK,
    /// Any other function, by its table: the next output stands in the row
    /// whose number has the current output as bit 0, pin 1 as bit 1, pin 2
    /// as bit 2 and so on. A row that the table lacks reads as `false`.
    Lookup(Vec<bool>),
}

/// The logic of a gate as a plain value.
pub enum ReducerView {
    Hold,
    Nand,
    And,
    Or,
    Xor,
    Not,
    Buffer,
    JK,
    Lookup(Seq<bool>),
}

impl View for BinaryLogicReducer {
    type V = ReducerView;

    open spec fn view(&self) -> ReducerView {
        match *self {
            BinaryLogicReducer::Hold => ReducerView::Hold,
            BinaryLogicReducer::Nand => ReducerView::Nand,
            BinaryLogicReducer::And => ReducerView::And,
            BinaryLogicReducer::Or => ReducerView::Or,
            BinaryLogicReducer::Xor => ReducerView::Xor,
            BinaryLogicReducer::Not => ReducerView::Not,
            BinaryLogicReducer::Buffer => ReducerView::Buffer,
            BinaryLogicReducer::JK => ReducerView::JK,
            BinaryLogicReducer::Lookup(t) => ReducerView::Lookup(t@),
        }
    }
}

/// Value read on pin `i` of `pins`: the stored value, or `false` where the
/// vector is too short.
pub open spec fn pin_level(pins: Seq<bool>, i: int) -> bool {
    0 <= i < pins.len() && pins[i]
}

/// The number of a bit.
pub open spec fn bit_number(b: bool) -> nat {
    if b {
        1
    } else {
        0
    }
}

/// The number whose binary digits are the values from pin `k` on, the
/// lowest pin being the least significant digit.
pub open spec fn pins_number(pins: Seq<bool>, k: nat) -> nat
    decreases pins.len() - k,
{
    if k >= pins.len() {
        0
    } else {
        bit_number(pins[k as int]) + 2 * pins_number(pins, k + 1)
    }
}

/// The row of a lookup table for the pin values `pins` and the current
/// output `q`.
pub open spec fn lookup_row(pins: Seq<bool>, q: bool) -> nat {
    bit_number(q) + 2 * pins_number(pins, 1)
}

impl ReducerView {
    /// The next output for pin values `pins` and current output `q`.
    pub open spec fn apply(self, pins: Seq<bool>, q: bool) -> bool {
        let a = pin_level(pins, 1);
        let b = pin_level(pins, 2);
        match self {
            ReducerView::Hold => q,
            ReducerView::Nand => !(a && b),
            ReducerView::And => a && b,
            ReducerView::Or => a || b,
            ReducerView::Xor => a != b,
            ReducerView::Not => !a,
            ReducerView::Buffer => a,
            ReducerView::JK => (a && !q) || (!b && q),
            ReducerView::Lookup(t) => lookup_row(pins, q) < t.len() && t[lookup_row(pins, q) as int],
        }
    }

    /// Whether applying the function to its own result changes nothing, for
    /// every pin vector. It holds of every named function but `JK`.
    pub open spec fn is_level(self) -> bool {
        match self {
            ReducerView::JK => false,
            ReducerView::Lookup(t) => forall|pins: Seq<bool>, q: bool|
                self.apply(pins, #[trigger] self.apply(pins, q)) == self.apply(pins, q),
            _ => true,
        }
    }

    /// A level function reaches a fixed point after one application.
    pub proof fn lemma_level_idempotent(self, pins: Seq<bool>, q: bool)
        requires
            self.is_level(),
        ensures
            self.apply(pins, self.apply(pins, q)) == self.apply(pins, q),
    {
    }
}

/// The number of the pins only grows towards the lower pins.
pub proof fn lemma_pins_number_grows(pins: Seq<bool>, j: nat, k: nat)
    requires
        j <= k,
    ensures
        pins_number(pins, j) >= pins_number(pins, k),
    decreases k - j,
{
    if j < k {
        lemma_pins_number_grows(pins, j + 1, k);
        if j >= pins.len() {
            assert(pins_number(pins, k) == 0);
        }
    }
}

impl Clone for BinaryLogicReducer {
    fn clone(&self) -> (r: BinaryLogicReducer)
        ensures
            r@ == self@,
    {
        match self {
            BinaryLogicReducer::Hold => BinaryLogicReducer::Hold,
            BinaryLogicReducer::Nand => BinaryLogicReducer::Nand,
            BinaryLogicReducer::And => BinaryLogicReducer::And,
            BinaryLogicReducer::Or => BinaryLogicReducer::Or,
            BinaryLogicReducer::Xor => BinaryLogicReducer::Xor,
            BinaryLogicReducer::Not => BinaryLogicReducer::Not,
            BinaryLogicReducer::Buffer => BinaryLogicReducer::Buffer,
            BinaryLogicReducer::JK => BinaryLogicReducer::JK,
            BinaryLogicReducer::Lookup(t) => {
                let mut copy: Vec<bool> = Vec::new();
                let mut i: usize = 0;
                while i < t.len()
                    invariant
                        i <= t.len(),
                        copy@ =~= t@.take(i as int),
                    decreases t.len() - i,
                {
                    copy.push(t[i]);
                    i = i + 1;
                }
                assert(t@.take(t.len() as int) =~= t@);
                BinaryLogicReducer::Lookup(copy)
            },
        }
    }
}

impl BinaryLogicReducer {
    /// Looks the next output up in the table `t`.
    fn look_up(t: &Vec<bool>, pins: &Vec<bool>, q: bool) -> (r: bool)
        ensures
            r == (lookup_row(pins@, q) < t@.len() && t@[lookup_row(pins@, q) as int]),
    {
        let mut acc: usize = 0;
        let mut k: usize = pins.len();
        if k == 0 {
            k = 1;
        }
        while k > 1
            invariant
                1 <= k,
                pins@.len() == 0 ==> k == 1,
                pins@.len() > 0 ==> k <= pins@.len(),
                acc == pins_number(pins@, k as nat),
                acc < t@.len() || acc == 0,
            decreases k,
        {
            k = k - 1;
            let bit: usize = if pins[k] {
                1
            } else {
                0
            };
            assert(pins_number(pins@, k as nat) == bit + 2 * acc);
            let next: u128 = 2 * (acc as u128) + bit as u128;
            if next >= t.len() as u128 {
                proof {
                    lemma_pins_number_grows(pins@, 1, k as nat);
                    assert(pins_number(pins@, 1) >= t@.len());
                    assert(lookup_row(pins@, q) >= t@.len());
                }
                return false;
            }
            acc = next as usize;
        }
        let low: usize = if q {
            1
        } else {
            0
        };
        assert(lookup_row(pins@, q) == low + 2 * acc);
        let row: u128 = 2 * (acc as u128) + low as u128;
        if row >= t.len() as u128 {
            return false;
        }
        t[row as usize]
    }

    /// Computes the next output of a gate.
    pub fn eval(&self, pins: &Vec<bool>, q: bool) -> (r: bool)
        ensures
            r == self@.apply(pins@, q),
    {
        let a = pins.len() > 1 && pins[1];
        let b = pins.len() > 2 && pins[2];
        match self {
            BinaryLogicReducer::Hold => q,
            BinaryLogicReducer::Nand => !(a && b),
            BinaryLogicReducer::And => a && b,
            BinaryLogicReducer::Or => a || b,
            BinaryLogicReducer::Xor => a != b,
            BinaryLogicReducer::Not => !a,
            BinaryLogicReducer::Buffer => a,
            BinaryLogicReducer::JK => (a && !q) || (!b && q),
            BinaryLogicReducer::Lookup(t) => Self::look_up(t, pins, q),
        }
    }
}

/// Why an operation on a circuit did not succeed.
#[derive(PartialEq, Eq, Debug)]
pub enum CircuitError {
    /// No gate kind of this name is registered.
    UnknownKind(String),
    /// No gate with this identifier is in the circuit.
    UnknownId(ID),
    /// The pin number is not below the number of pins of the receiver.
    PinOutOfRange(PIN, usize),
    /// The emitter (first) does not drive the pin (third) of the receiver
    /// (second).
    EdgeAbsent(ID, ID, PIN),
    /// A gate cannot drive one of its own pins.
    SelfConnectionRejected(ID),
    /// Another gate already drives this pin of this receiver.
    PinAlreadyDriven(ID, PIN),
    /// The circuit has not been powered on.
    NotPoweredOn,
    /// A value propagation visited the maximum number of gates without
    /// settling; the circuit keeps the state reached.
    PropagationLimitExceeded,
    /// The component was removed, but the propagation from its former consumers
    /// visited the maximum number of gates without settling.
    RemovalUnsettled(ID),
}

/// A failure as a plain value, with the kind name as characters.
pub enum ErrorView {
    UnknownKind(Seq<char>),
    UnknownId(ID),
    PinOutOfRange(PIN, usize),
    EdgeAbsent(ID, ID, PIN),
    SelfConnectionRejected(ID),
    PinAlreadyDriven(ID, PIN),
    NotPoweredOn,
    PropagationLimitExceeded,
    RemovalUnsettled(ID),
}

impl View for CircuitError {
    type V = ErrorView;

    open spec fn view(&self) -> ErrorView {
        match *self {
            CircuitError::UnknownKind(s) => ErrorView::UnknownKind(s@),
            CircuitError::UnknownId(id) => ErrorView::UnknownId(id),
            CircuitError::PinOutOfRange(p, n) => ErrorView::PinOutOfRange(p, n),
            CircuitError::EdgeAbsent(e, r, p) => ErrorView::EdgeAbsent(e, r, p),
            CircuitError::SelfConnectionRejected(id) => ErrorView::SelfConnectionRejected(id),
            CircuitError::PinAlreadyDriven(id, p) => ErrorView::PinAlreadyDriven(id, p),
            CircuitError::NotPoweredOn => ErrorView::NotPoweredOn,
            CircuitError::PropagationLimitExceeded => ErrorView::PropagationLimitExceeded,
            CircuitError::RemovalUnsettled(id) => ErrorView::RemovalUnsettled(id),
        }
    }
}

/// What a failure says of itself.
pub open spec fn message_of(e: ErrorView) -> Seq<char> {
    match e {
        ErrorView::UnknownKind(name) => "Component type not defined "@ + name,
        ErrorView::UnknownId(id) => "No component with id_"@ + signed(id as int),
        ErrorView::PinOutOfRange(pin, count) => "There are only "@ + decimal(count as nat)
            + " pins, can't access "@ + decimal(pin as nat),
        ErrorView::EdgeAbsent(e, r, p) => "No connection b/w id_"@ + signed(e as int) + " and id_"@
            + signed(r as int) + " pin_"@ + decimal(p as nat),
        ErrorView::SelfConnectionRejected(id) => "id_"@ + signed(id as int)
            + " Self connection is not supported, please use a buffer."@,
        ErrorView::PinAlreadyDriven(id, pin) => "Please disconnect it first!"@,
        ErrorView::NotPoweredOn => "Power on the circuit first!"@,
        ErrorView::PropagationLimitExceeded => "Propagation limit exceeded"@,
        ErrorView::RemovalUnsettled(id) => "Could not remove id_"@ + signed(id as int)
            + " completely: Propagation limit exceeded"@,
    }
}

impl Clone for CircuitError {
    fn clone(&self) -> (r: CircuitError)
        ensures
            r@ == self@,
    {
        match self {
            CircuitError::UnknownKind(name) => CircuitError::UnknownKind(name.clone()),
            CircuitError::UnknownId(id) => CircuitError::UnknownId(*id),
            CircuitError::PinOutOfRange(p, n) => CircuitError::PinOutOfRange(*p, *n),
            CircuitError::EdgeAbsent(e, r, p) => CircuitError::EdgeAbsent(*e, *r, *p),
            CircuitError::SelfConnectionRejected(id) => CircuitError::SelfConnectionRejected(*id),
            CircuitError::PinAlreadyDriven(id, p) => CircuitError::PinAlreadyDriven(*id, *p),
            CircuitError::NotPoweredOn => CircuitError::NotPoweredOn,
            CircuitError::PropagationLimitExceeded => CircuitError::PropagationLimitExceeded,
            CircuitError::RemovalUnsettled(id) => CircuitError::RemovalUnsettled(*id),
        }
    }
}

impl CircuitError {
    /// The failure in words.
    pub fn message(&self) -> (r: String)
        ensures
            r@ == message_of(self@),
    {
        match self {
            CircuitError::UnknownKind(name) => {
                let mut r = String::from_str("Component type not defined ");
                r.append(name.as_str());
                r
            },
            CircuitError::UnknownId(id) => {
                let mut r = String::from_str("No component with id_");
                r.append(signed_string(*id as i64).as_str());
                r
            },
            CircuitError::PinOutOfRange(pin, count) => {
                let mut r = String::from_str("There are only ");
                r.append(decimal_string(*count as u64).as_str());
                r.append(" pins, can't access ");
                r.append(decimal_string(*pin as u64).as_str());
                r
            },
            CircuitError::EdgeAbsent(e, rcv, p) => {
                let mut r = String::from_str("No connection b/w id_");
                r.append(signed_string(*e as i64).as_str());
                r.append(" and id_");
                r.append(signed_string(*rcv as i64).as_str());
                r.append(" pin_");
                r.append(decimal_string(*p as u64).as_str());
                r
            },
            CircuitError::SelfConnectionRejected(id) => {
                let mut r = String::from_str("id_");
                r.append(signed_string(*id as i64).as_str());
                r.append(" Self connection is not supported, please use a buffer.");
                r
            },
            CircuitError::PinAlreadyDriven(_, _) => String::from_str("Please disconnect it first!"),
            CircuitError::NotPoweredOn => String::from_str("Power on the circuit first!"),
            CircuitError::PropagationLimitExceeded => String::from_str("Propagation limit exceeded"),
            CircuitError::RemovalUnsettled(id) => {
                let mut r = String::from_str("Could not remove id_");
                r.append(signed_string(*id as i64).as_str());
                r.append(" completely: Propagation limit exceeded");
                r
            },
        }
    }
}

} // verus!
