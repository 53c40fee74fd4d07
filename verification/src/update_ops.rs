//! The events that edit a circuit, and how far the display is behind it.

use vstd::prelude::*;
use vstd::string::*;
use std::collections::VecDeque;
use crate::circuit::{isolated, limit, BCircuit, CircuitView};
use crate::network::{linked, settles, targets, unlinked, ComponentActor};
use crate::types::{message_of, CircuitError, ErrorView, ID, PIN};

verus! {

/// Whether the display shows the circuit as it is.
pub enum SyncState {
    /// The display is up to date.
    Synced,
    /// The last edit failed, with the reason.
    Error(String),
    /// An edit was made that the display has not shown yet.
    NotSynced,
}

/// The state of the display as a plain value.
pub enum SyncView {
    Synced,
    Error(Seq<char>),
    NotSynced,
}

impl View for SyncState {
    type V = SyncView;

    open spec fn view(&self) -> SyncView {
        match *self {
            SyncState::Synced => SyncView::Synced,
            SyncState::Error(msg) => SyncView::Error(msg@),
            SyncState::NotSynced => SyncView::NotSynced,
        }
    }
}

impl SyncState {
    pub fn is_synced(&self) -> (r: bool)
        ensures
            r == (self is Synced),
    {
        matches!(self, SyncState::Synced)
    }

    pub fn is_error(&self) -> (r: bool)
        ensures
            r == (self is Error),
    {
        matches!(self, SyncState::Error(_))
    }

    /// The reason of the failure, or nothing where there is no failure.
    pub fn error_msg(&self) -> (r: &str)
        ensures
            r@ == match *self {
                SyncState::Error(msg) => msg@,
                _ => Seq::<char>::empty(),
            },
    {
        if let SyncState::Error(msg) = self {
            msg.as_str()
        } else {
            proof {
                reveal_strlit("");
            }
            ""
        }
    }
}

/// An edit of the circuit.
pub enum CircuitUpdateOps {
    /// Set the output of a gate.
    SetState(ID, bool),
    /// Wire the emitter (first) to the pin (third) of the receiver (second).
    Connect(ID, ID, PIN),
    /// Cut the wire from the emitter (first) to the pin (third) of the
    /// receiver (second).
    Disconnect(ID, ID, PIN),
    /// Take a gate out.
    Remove(ID),
    /// Give a gate another label.
    SetComponentLabel(ID, String),
}

/// An edit as plain values.
pub enum OpView {
    SetState(ID, bool),
    Connect(ID, ID, PIN),
    Disconnect(ID, ID, PIN),
    Remove(ID),
    SetComponentLabel(ID, Seq<char>),
}

impl View for CircuitUpdateOps {
    type V = OpView;

    open spec fn view(&self) -> OpView {
        match *self {
            CircuitUpdateOps::SetState(id, v) => OpView::SetState(id, v),
            CircuitUpdateOps::Connect(e, r, p) => OpView::Connect(e, r, p),
            CircuitUpdateOps::Disconnect(e, r, p) => OpView::Disconnect(e, r, p),
            CircuitUpdateOps::Remove(id) => OpView::Remove(id),
            CircuitUpdateOps::SetComponentLabel(id, lab) => OpView::SetComponentLabel(id, lab@),
        }
    }
}

impl OpView {
    /// A wire was made or cut.
    pub open spec fn is_wiring(self) -> bool {
        self is Connect || self is Disconnect
    }
}

/// The failure of a value propagation that did not settle.
pub open spec fn unless_settled(done: bool) -> Option<ErrorView> {
    if done {
        None
    } else {
        Some(ErrorView::PropagationLimitExceeded)
    }
}

/// The circuit after the edit `op`, and why the edit failed where it did.
pub open spec fn outcome(c: CircuitView, op: OpView) -> (CircuitView, Option<ErrorView>) {
    match op {
        OpView::SetState(id, v) => if !c.active {
            (c, Some(ErrorView::NotPoweredOn))
        } else if !c.gates.contains_key(id) {
            (c, Some(ErrorView::UnknownId(id)))
        } else {
            (c.driven(id, v), unless_settled(c.drive_settles(id, v)))
        },
        OpView::Connect(e, r, p) => match c.connect_fault(r, p, e) {
            Some(err) => (c, Some(err)),
            None => (
                c.connected(r, p, e),
                unless_settled(
                    settles(
                        linked(c.gates, r, p, e),
                        seq![r],
                        ComponentActor::UpdateState,
                        limit(),
                    ),
                ),
            ),
        },
        OpView::Disconnect(e, r, p) => match c.disconnect_fault(r, p, e) {
            Some(err) => (c, Some(err)),
            None => (
                c.disconnected(r, p, e),
                unless_settled(
                    settles(
                        unlinked(c.gates, r, p, e),
                        seq![r],
                        ComponentActor::UpdateState,
                        limit(),
                    ),
                ),
            ),
        },
        OpView::Remove(id) => if !c.gates.contains_key(id) {
            (c, Some(ErrorView::UnknownId(id)))
        } else {
            (
                c.removed(id),
                if settles(
                    isolated(c.gates, id),
                    targets(c.gates[id].receivers),
                    ComponentActor::UpdateState,
                    limit(),
                ) {
                    None
                } else {
                    Some(ErrorView::RemovalUnsettled(id))
                },
            )
        },
        OpView::SetComponentLabel(id, lab) => if c.gates.contains_key(id) {
            (c.relabelled(id, lab), None)
        } else {
            (c, Some(ErrorView::UnknownId(id)))
        },
    }
}

/// What the display is told after an edit: that it is behind where the
/// edit succeeded, and the failure in words where it failed.
pub open spec fn sync_of(fault: Option<ErrorView>) -> SyncView {
    match fault {
        None => SyncView::NotSynced,
        Some(e) => SyncView::Error(message_of(e)),
    }
}

/// What a run of edits leaves behind: the circuit, what the display is
/// told, and the wirings that succeeded.
pub struct Played {
    pub ckt: CircuitView,
    pub sync: SyncView,
    pub wired: Seq<OpView>,
}

/// What the first `k` of the edits `ops` leave behind, played in order on
/// `start`. Every edit is played, whether or not the one before it failed;
/// the display is told of the last one.
pub open spec fn played(start: Played, ops: Seq<OpView>, k: nat) -> Played
    decreases k,
{
    if k == 0 || k > ops.len() {
        start
    } else {
        let prev = played(start, ops, (k - 1) as nat);
        let op = ops[k - 1];
        let next = outcome(prev.ckt, op);
        Played {
            ckt: next.0,
            sync: sync_of(next.1),
            wired: if next.1 is None && op.is_wiring() {
                prev.wired.push(op)
            } else {
                prev.wired
            },
        }
    }
}

/// Applies one edit to the circuit and gives what the circuit answered.
pub fn apply_op(ckt: &mut BCircuit, op: &CircuitUpdateOps) -> (res: Result<(), CircuitError>)
    requires
        old(ckt).wf(),
    ensures
        final(ckt).wf(),
        final(ckt)@ == outcome(old(ckt)@, op@).0,
        match res {
            Ok(_) => outcome(old(ckt)@, op@).1 is None,
            Err(e) => outcome(old(ckt)@, op@).1 == Some(e@),
        },
{
    match op {
        CircuitUpdateOps::SetState(id, val) => ckt.set_component_state(*id, *val),
        CircuitUpdateOps::Connect(emitter, receiver, pin) => ckt.connect(*receiver, *pin, *emitter),
        CircuitUpdateOps::Disconnect(emitter, receiver, pin) => ckt.disconnect(
            *receiver,
            *pin,
            *emitter,
        ),
        CircuitUpdateOps::Remove(id) => ckt.remove_component(*id),
        CircuitUpdateOps::SetComponentLabel(id, new_label) => ckt.set_component_label(
            *id,
            new_label.as_str(),
        ),
    }
}

/// The views of a queue of edits.
pub open spec fn op_views(q: Seq<CircuitUpdateOps>) -> Seq<OpView> {
    q.map_values(|op: CircuitUpdateOps| op@)
}

/// Plays the waiting edits on the circuit in order and empties the queue.
/// After each edit the display is told that it is behind, or why the edit
/// failed; the wirings that succeeded are handed on to `ui_sender`.
pub fn ckt_communicate(
    receiver: &mut VecDeque<CircuitUpdateOps>,
    ckt: &mut BCircuit,
    sync: &mut SyncState,
    ui_sender: &mut VecDeque<CircuitUpdateOps>,
)
    requires
        old(ckt).wf(),
    ensures
        final(ckt).wf(),
        final(receiver)@.len() == 0,
        (Played {
            ckt: final(ckt)@,
            sync: final(sync)@,
            wired: op_views(final(ui_sender)@),
        }) == played(
            Played { ckt: old(ckt)@, sync: old(sync)@, wired: op_views(old(ui_sender)@) },
            op_views(old(receiver)@),
            old(receiver)@.len(),
        ),
{
    let ghost ops = op_views(receiver@);
    let ghost start = Played { ckt: ckt@, sync: sync@, wired: op_views(ui_sender@) };
    let ghost mut k: nat = 0;
    while receiver.len() > 0
        invariant
            ckt.wf(),
            k + receiver@.len() == ops.len(),
            op_views(receiver@) =~= ops.skip(k as int),
            (Played { ckt: ckt@, sync: sync@, wired: op_views(ui_sender@) }) == played(
                start,
                ops,
                k,
            ),
        decreases receiver@.len(),
    {
        let ghost before = receiver@;
        let rec = receiver.pop_front().unwrap();
        proof {
            assert(rec@ == ops[k as int]) by {
                assert(op_views(before)[0] == ops.skip(k as int)[0]);
            }
            assert(op_views(receiver@) =~= ops.skip(k as int + 1)) by {
                assert forall|i: int| 0 <= i < receiver@.len() implies op_views(receiver@)[i]
                    == ops.skip(k as int + 1)[i] by {
                    assert(receiver@[i] == before[i + 1]);
                    assert(op_views(before)[i + 1] == ops.skip(k as int)[i + 1]);
                }
            }
        }
        let result = apply_op(ckt, &rec);
        let ghost sent = ui_sender@;
        match result {
            Ok(_) => {
                *sync = SyncState::NotSynced;
                let wiring = match &rec {
                    CircuitUpdateOps::Connect(_, _, _) => true,
                    CircuitUpdateOps::Disconnect(_, _, _) => true,
                    _ => false,
                };
                if wiring {
                    ui_sender.push_back(rec);
                    assert(op_views(ui_sender@) =~= op_views(sent).push(rec@));
                }
            },
            Err(e) => {
                *sync = SyncState::Error(e.message());
            },
        }
        proof {
            k = k + 1;
        }
    }
}

/// Flips the clock source on every `clk_t`-th frame: where `render_cnt` is
/// a multiple of `clk_t`, the output of the clock source is inverted and
/// the change propagated. Tells whether the frame was such a frame. Nothing
/// happens on other frames, with a period of zero, without a clock source,
/// or where the circuit does not take the change.
pub fn toggle_clock(ckt: &mut BCircuit, render_cnt: u64, clk_t: u64) -> (due: bool)
    requires
        old(ckt).wf(),
    ensures
        final(ckt).wf(),
        due == (clk_t != 0 && render_cnt % clk_t == 0),
        final(ckt)@ == if due && old(ckt)@.clk is Some && old(ckt)@.gates.contains_key(
            old(ckt)@.clk->Some_0,
        ) {
            outcome(
                old(ckt)@,
                OpView::SetState(
                    old(ckt)@.clk->Some_0,
                    !old(ckt)@.gates[old(ckt)@.clk->Some_0].state,
                ),
            ).0
        } else {
            old(ckt)@
        },
{
    if clk_t == 0 || render_cnt % clk_t != 0 {
        return false;
    }
    match ckt.get_clk_id() {
        Some(clk_id) => {
            match ckt.state(clk_id) {
                Some(cur) => {
                    let _ = ckt.set_component_state(clk_id, !cur);
                },
                None => {},
            }
        },
        None => {},
    }
    true
}

} // verus!
