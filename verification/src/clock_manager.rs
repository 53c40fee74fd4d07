//! The edge detector of a sequential gate.

use vstd::prelude::*;

verus! {

/// Remembers the two most recent distinct values seen on a clock pin.
pub struct ClockManager {
    pub curr: bool,
    pub last: bool,
    pub expr: String,
}

/// The two remembered values of an edge detector.
pub struct ClockView {
    pub curr: bool,
    pub last: bool,
}

impl ClockView {
    /// A rising edge is held: the value before was low and the value now is
    /// high.
    pub open spec fn triggered(self) -> bool {
        !self.last && self.curr
    }

    /// The detector after it has seen `val`: a repeated value is ignored, a
    /// new one shifts the current value into the previous one.
    pub open spec fn push(self, val: bool) -> ClockView {
        if val == self.curr {
            self
        } else {
            ClockView { curr: val, last: self.curr }
        }
    }

    /// The detector with both values low.
    pub open spec fn cleared() -> ClockView {
        ClockView { curr: false, last: false }
    }
}

impl View for ClockManager {
    type V = ClockView;

    open spec fn view(&self) -> ClockView {
        ClockView { curr: self.curr, last: self.last }
    }
}

impl ClockManager {
    pub fn new() -> (r: ClockManager)
        ensures
            r@ == ClockView::cleared(),
            r.expr@ == Seq::<char>::empty(),
    {
        ClockManager { curr: false, last: false, expr: String::new() }
    }

    /// Forgets the edge that was seen.
    pub fn reset_clock_hist(&mut self)
        ensures
            final(self)@ == ClockView::cleared(),
            final(self).expr == old(self).expr,
    {
        self.curr = false;
        self.last = false;
    }

    pub fn clock_triggered(&self) -> (r: bool)
        ensures
            r == self@.triggered(),
    {
        self.last == false && self.curr
    }

    /// Records a value written to the clock pin.
    pub fn push(&mut self, val: bool)
        ensures
            final(self)@ == old(self)@.push(val),
            final(self).expr == old(self).expr,
    {
        if val == self.curr {
            return ;
        }
        self.last = self.curr;
        self.curr = val
    }

    /// Stores the formula of the signal on the clock pin.
    pub fn clk_expr(&mut self, val: String)
        ensures
            final(self)@ == old(self)@,
            final(self).expr == val,
    {
        self.expr = val;
    }
}

} // verus!
