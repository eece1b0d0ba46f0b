use std::collections::BTreeSet;

use jap::orchestrator::{Orchestrator, INITIAL_WINDOW};
use jap::{Ack, FileData, JapError, Packet, PacketValue};

fn data(seq: u32) -> Packet {
    Packet { seq, value: PacketValue::Data { data: FileData(vec![seq as u8]), window: 1 } }
}

fn ack(cum: u32) -> Packet {
    Packet { seq: 0, value: PacketValue::Ack(Ack { cum, sel: BTreeSet::new(), adv_win: 4 }) }
}

fn batch(n: u32) -> Orchestrator {
    let mut o = Orchestrator::new(1_000);
    o.change_packets((1..=n).map(data).collect(), 2_200_000_000);
    o
}

#[test]
fn a_new_orchestrator_has_nothing_to_send() {
    let mut o = Orchestrator::new(5);
    assert_eq!(o.window(), INITIAL_WINDOW);
    assert_eq!(o.timeout(), 5);
    assert!(o.success());
    assert_eq!(o.select_send_window(), Err(JapError::NothingToSend));
    assert!(o.timed_out(0));
}

#[test]
fn transmit_takes_the_first_window_of_unacked() {
    let mut o = batch(6);
    assert_eq!(o.timeout(), 2_200_000_000);
    let sent = o.select_send_window().unwrap();
    assert_eq!(sent.iter().map(|p| p.seq).collect::<Vec<_>>(), vec![1, 2, 3, 4]);
    let got = o.process_acks(&vec![ack(2)]);
    assert_eq!(got.into_iter().collect::<Vec<_>>(), vec![1, 2]);
    let sent = o.select_send_window().unwrap();
    assert_eq!(sent.iter().map(|p| p.seq).collect::<Vec<_>>(), vec![3, 4, 5, 6]);
    assert!(!o.success());
    o.process_acks(&vec![ack(6)]);
    assert!(o.success());
    assert_eq!(o.select_send_window(), Err(JapError::NothingToSend));
}

#[test]
fn timeout_doubles_and_window_shrinks() {
    let mut o = batch(6);
    o.select_send_window().unwrap();
    o.process_acks(&vec![ack(2)]);
    assert!(!o.send_window_is_empty());
    assert!(!o.timed_out(2_200_000_000));
    assert!(o.timed_out(2_200_000_001));
    // two acknowledged numbers lie outside the send window
    assert_eq!(o.window(), 2);
    assert_eq!(o.timeout(), 4_400_000_000);
}

#[test]
fn window_never_drops_below_one() {
    let mut o = batch(6);
    o.select_send_window().unwrap();
    o.process_acks(&vec![ack(4)]);
    o.select_send_window().unwrap();
    assert!(o.timed_out(u128::from(u64::MAX)));
    assert_eq!(o.window(), 1);
}

#[test]
fn acks_for_other_packets_change_nothing() {
    let mut o = batch(3);
    o.select_send_window().unwrap();
    let got = o.process_acks(&vec![ack(0), data(9)]);
    assert!(got.is_empty());
    assert!(!o.success());
}
