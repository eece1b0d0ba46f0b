use std::collections::BTreeSet;

use jap::{Ack, Acker, Packet, PacketValue};

fn start(seq: u32) -> Packet {
    Packet { seq, value: PacketValue::Start }
}

fn set(xs: &[u32]) -> BTreeSet<u32> {
    xs.iter().copied().collect()
}

#[test]
fn add_seq_moves_the_cumulative_ack() {
    let mut a = Ack { cum: 3, sel: set(&[5, 6, 9]), adv_win: 2 };
    assert!(a.add_seq(4));
    assert_eq!(a.cum, 6);
    assert_eq!(a.sel, set(&[9]));
    assert!(a.add_seq(7));
    assert_eq!(a.cum, 7);
    assert_eq!(a.sel, set(&[9]));
    assert_eq!(a.adv_win, 2);
}

#[test]
fn add_seq_fills_a_gap() {
    let mut a = Ack { cum: 1, sel: set(&[3]), adv_win: 4 };
    assert!(a.add_seq(2));
    assert_eq!(a, Ack { cum: 3, sel: BTreeSet::new(), adv_win: 4 });
}

#[test]
fn add_seq_stops_at_the_last_number() {
    let mut a = Ack { cum: u32::MAX - 2, sel: set(&[u32::MAX]), adv_win: 1 };
    assert!(a.add_seq(u32::MAX - 1));
    assert_eq!(a.cum, u32::MAX);
    assert!(a.sel.is_empty());
}

#[test]
fn add_seq_keeps_selective_acks() {
    let mut a = Ack { cum: 3, sel: set(&[]), adv_win: 1 };
    assert!(a.add_seq(8));
    assert!(!a.add_seq(8));
    assert_eq!(a.cum, 3);
    assert_eq!(a.sel, set(&[8]));
}

#[test]
fn add_seq_ignores_what_is_already_covered() {
    let mut a = Ack { cum: 3, sel: set(&[7]), adv_win: 1 };
    assert!(!a.add_seq(3));
    assert!(!a.add_seq(0));
    assert_eq!(a, Ack { cum: 3, sel: set(&[7]), adv_win: 1 });
}

#[test]
fn from_packets_reports_what_arrived() {
    let packets = vec![start(1), start(2), start(4), start(3), start(0), start(7)];
    let a = Ack::from_packets(&packets, 5);
    assert_eq!(a.cum, 4);
    assert_eq!(a.sel, set(&[7]));
    assert_eq!(a.adv_win, 5);
}

#[test]
fn from_packets_does_not_depend_on_order() {
    let a = Ack::from_packets(&[start(3), start(1), start(2)], 4);
    let b = Ack::from_packets(&[start(1), start(2), start(3)], 4);
    assert_eq!(a, Ack { cum: 3, sel: BTreeSet::new(), adv_win: 4 });
    assert_eq!(a, b);
}

#[test]
fn from_no_packets_is_an_empty_ack() {
    let a = Ack::from_packets(&[], 4);
    assert_eq!(a, Ack { cum: 0, sel: BTreeSet::new(), adv_win: 4 });
}

#[test]
fn acker_starts_without_an_ack() {
    assert_eq!(format!("{:?}", Acker::new()), "Acker { current_ack: None }");
}
