use bsim::circuit::BCircuit;
use bsim::text::{decimal_string, repeat, signed_string};
use bsim::top_bar::{decoder_from, decoder_lines, Modulator};
use bsim::types::CircuitError;
use bsim::update_ops::{apply_op, ckt_communicate, toggle_clock, CircuitUpdateOps, SyncState};
use std::collections::VecDeque;

#[test]
fn pre_modulate_texts() {
    assert_eq!(Modulator::Expressions.pre_modulate("f = a.b"), "f = a.b");
    assert_eq!(Modulator::SevenSegment.pre_modulate("anything"), "a=a;b=b;c=c;d=d;e=e;f=f;g=g;");
    assert_eq!(Modulator::Encoder.pre_modulate("4x2"), "");
    assert_eq!(
        Modulator::Decoder.pre_modulate("2x4"),
        "0 = !a.!b;1 = a.!b;2 = !a.b;3 = a.b"
    );
    assert_eq!(Modulator::Decoder.pre_modulate("1x3"), "0 = !a;1 = a;2 = !a");
    assert_eq!(Modulator::Decoder.pre_modulate("0x2"), "0 = ;1 = ");
}

#[test]
fn pre_modulate_rejects_what_is_no_decoder() {
    assert_eq!(Modulator::Decoder.pre_modulate(""), "");
    assert_eq!(Modulator::Decoder.pre_modulate("3"), "");
    assert_eq!(Modulator::Decoder.pre_modulate("x"), "");
    assert_eq!(Modulator::Decoder.pre_modulate("3x"), "");
    assert_eq!(Modulator::Decoder.pre_modulate("3x8x2"), "");
    assert_eq!(Modulator::Decoder.pre_modulate("ax8"), "");
    assert_eq!(Modulator::Decoder.pre_modulate("2x0"), "");
    assert_eq!(Modulator::Decoder.pre_modulate("2x-1"), "");
    assert_eq!(Modulator::Decoder.pre_modulate("-1x2"), "");
    assert_eq!(Modulator::Decoder.pre_modulate("27x1"), "");
    // a number is an optional sign and digits, nothing else
    assert_eq!(Modulator::Decoder.pre_modulate("+1x2"), "0 = !a;1 = a");
    assert_eq!(Modulator::Decoder.pre_modulate("01x+02"), "0 = !a;1 = a");
    assert_eq!(Modulator::Decoder.pre_modulate("-0x1"), "0 = ");
    assert_eq!(Modulator::Decoder.pre_modulate(" 1x2"), "");
    assert_eq!(Modulator::Decoder.pre_modulate("1 x2"), "");
    assert_eq!(Modulator::Decoder.pre_modulate("1x2 "), "");
    assert_eq!(Modulator::Decoder.pre_modulate("+x2"), "");
    assert_eq!(Modulator::Decoder.pre_modulate("1x-"), "");
    assert_eq!(Modulator::Decoder.pre_modulate("1x1_0"), "");
    assert_eq!(Modulator::Decoder.pre_modulate("1x0b1"), "");
    // a value that does not fit thirty-two bits is no number
    assert_eq!(Modulator::Decoder.pre_modulate("0x2147483648"), "");
    assert_eq!(Modulator::Decoder.pre_modulate("4294967297x1"), "");
}

#[test]
fn decoder_lines_of_three_inputs() {
    let text = decoder_lines(3, 8);
    let lines: Vec<&str> = text.split(';').collect();
    assert_eq!(lines.len(), 8);
    assert_eq!(lines[0], "0 = !a.!b.!c");
    assert_eq!(lines[5], "5 = a.!b.c");
    assert_eq!(lines[7], "7 = a.b.c");
    assert_eq!(decoder_lines(26, 1).len(), 4 + 3 * 26 - 1);
    assert_eq!(decoder_from(Some(1), Some(1)), "0 = !a");
    assert_eq!(decoder_from(None, Some(1)), "");
    assert_eq!(decoder_from(Some(1), None), "");
}

#[test]
fn decimal_digits() {
    assert_eq!(decimal_string(0), "0");
    assert_eq!(decimal_string(7), "7");
    assert_eq!(decimal_string(10), "10");
    assert_eq!(decimal_string(4096), "4096");
    assert_eq!(decimal_string(u64::MAX), "18446744073709551615");
    assert_eq!(signed_string(0), "0");
    assert_eq!(signed_string(-1), "-1");
    assert_eq!(signed_string(i64::MIN), "-9223372036854775808");
    assert_eq!(signed_string(i64::MAX), "9223372036854775807");
    assert_eq!(repeat("ab", 3), "ababab");
    assert_eq!(repeat("ab", 0), "");
}

#[test]
fn sync_state_answers() {
    assert!(SyncState::Synced.is_synced());
    assert!(!SyncState::NotSynced.is_synced());
    assert!(!SyncState::Synced.is_error());
    assert!(SyncState::Error("bad".to_string()).is_error());
    assert_eq!(SyncState::Error("bad".to_string()).error_msg(), "bad");
    assert_eq!(SyncState::NotSynced.error_msg(), "");
}

#[test]
fn waiting_edits_are_played_in_order() {
    let mut c = BCircuit::new();
    c.power_on();
    let a = c.add_input("A", true);
    let n = c.add_component("NOT", "N").unwrap();
    let mut waiting = VecDeque::new();
    waiting.push_back(CircuitUpdateOps::Connect(a, n, 1));
    waiting.push_back(CircuitUpdateOps::Connect(a, n, 5));
    waiting.push_back(CircuitUpdateOps::SetState(a, false));
    waiting.push_back(CircuitUpdateOps::Disconnect(a, n, 1));
    waiting.push_back(CircuitUpdateOps::Remove(77));
    let mut sync = SyncState::Synced;
    let mut shown = VecDeque::new();
    ckt_communicate(&mut waiting, &mut c, &mut sync, &mut shown);
    assert!(waiting.is_empty());
    assert_eq!(sync.error_msg(), "No component with id_77");
    assert_eq!(shown.len(), 2);
    assert!(matches!(shown[0], CircuitUpdateOps::Connect(1, 2, 1)));
    assert!(matches!(shown[1], CircuitUpdateOps::Disconnect(1, 2, 1)));
    assert_eq!(c.state(a), Some(false));
    assert!(c.get_component(&a).unwrap().get_output_receivers().is_empty());
    waiting.push_back(CircuitUpdateOps::SetComponentLabel(a, "B".to_string()));
    ckt_communicate(&mut waiting, &mut c, &mut sync, &mut shown);
    assert!(matches!(sync, SyncState::NotSynced));
    assert_eq!(c.get_component(&a).unwrap().label, "B");
}

#[test]
fn clock_flips_on_every_period() {
    let mut c = BCircuit::new();
    c.power_on();
    let clk = c.add_input("CLK", false);
    assert!(toggle_clock(&mut c, 0, 60));
    assert_eq!(c.state(clk), Some(false));
    c.clock(clk);
    assert!(!toggle_clock(&mut c, 59, 60));
    assert_eq!(c.state(clk), Some(false));
    assert!(toggle_clock(&mut c, 120, 60));
    assert_eq!(c.state(clk), Some(true));
    assert!(toggle_clock(&mut c, 0, 60));
    assert_eq!(c.state(clk), Some(false));
    assert!(!toggle_clock(&mut c, 0, 0));
    assert_eq!(c.state(clk), Some(false));
}

#[test]
fn events_edit_the_circuit() {
    let mut c = BCircuit::new();
    c.power_on();
    let a = c.add_input("A", false);
    let n = c.add_component("NOT", "N").unwrap();
    assert_eq!(apply_op(&mut c, &CircuitUpdateOps::Connect(a, n, 1)), Ok(()));
    assert_eq!(c.state(n), Some(true));
    assert_eq!(apply_op(&mut c, &CircuitUpdateOps::SetState(a, true)), Ok(()));
    assert_eq!(c.state(n), Some(false));
    assert_eq!(
        apply_op(&mut c, &CircuitUpdateOps::SetComponentLabel(a, "in".to_string())),
        Ok(())
    );
    assert_eq!(c.get_component(&n).unwrap().state_expr, "!in");
    assert_eq!(
        apply_op(&mut c, &CircuitUpdateOps::Disconnect(n, a, 1)),
        Err(CircuitError::EdgeAbsent(n, a, 1))
    );
    assert_eq!(apply_op(&mut c, &CircuitUpdateOps::Disconnect(a, n, 1)), Ok(()));
    assert_eq!(c.state(n), Some(true));
    assert_eq!(apply_op(&mut c, &CircuitUpdateOps::Remove(a)), Ok(()));
    assert_eq!(apply_op(&mut c, &CircuitUpdateOps::Remove(a)), Err(CircuitError::UnknownId(a)));
}
