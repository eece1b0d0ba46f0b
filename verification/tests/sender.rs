use std::collections::{BTreeMap, BTreeSet};

use jap::sender::{close_round, got_all_acks, make_window, new_ack_count, next_window_size, record_acks};
use jap::{Ack, FileData, Packet, PacketValue};

fn value(b: u8) -> PacketValue {
    PacketValue::Data { data: FileData(vec![b]), window: 1 }
}

fn ack(seq: u32, cum: u32) -> Packet {
    Packet { seq, value: PacketValue::Ack(Ack { cum, sel: BTreeSet::new(), adv_win: 4 }) }
}

fn map(keys: &[u32]) -> BTreeMap<u32, PacketValue> {
    keys.iter().map(|&k| (k, value(k as u8))).collect()
}

#[test]
fn make_window_drops_acked_and_takes_the_lowest() {
    let mut packets = map(&[1, 2, 3, 4, 5, 6]);
    let acks: BTreeSet<u32> = [2, 4].into_iter().collect();
    let window = make_window(&mut packets, 3, &acks);
    assert_eq!(packets.keys().copied().collect::<Vec<_>>(), vec![1, 3, 5, 6]);
    assert_eq!(window.keys().copied().collect::<Vec<_>>(), vec![1, 3, 5]);
    assert_eq!(window[&5], value(5));
}

#[test]
fn make_window_larger_than_what_is_left() {
    let mut packets = map(&[1, 2]);
    let window = make_window(&mut packets, 10, &BTreeSet::new());
    assert_eq!(window.len(), 2);
    let none = make_window(&mut packets, 0, &BTreeSet::new());
    assert!(none.is_empty());
}

#[test]
fn got_all_acks_checks_every_key() {
    let packets = map(&[1, 2, 3]);
    let some: BTreeSet<u32> = [1, 3].into_iter().collect();
    let all: BTreeSet<u32> = [1, 2, 3, 9].into_iter().collect();
    assert!(!got_all_acks(&packets, &some));
    assert!(got_all_acks(&packets, &all));
    assert!(got_all_acks(&BTreeMap::new(), &BTreeSet::new()));
}

#[test]
fn record_acks_marks_and_counts_new_ones() {
    let packets = map(&[1, 2, 3, 4]);
    let mut acks: BTreeSet<u32> = [1].into_iter().collect();
    let mut got = 0;
    let received = vec![ack(0, 2), Packet { seq: 1, value: PacketValue::Start }, ack(1, 3)];
    assert_eq!(new_ack_count(&packets, &acks, &received), 2);
    record_acks(&packets, &mut acks, &mut got, &received);
    assert_eq!(acks.into_iter().collect::<Vec<_>>(), vec![1, 2, 3]);
    assert_eq!(got, 2);
}

#[test]
fn window_grows_and_shrinks() {
    assert_eq!(next_window_size(4, 4), 5);
    assert_eq!(next_window_size(4, 9), 5);
    assert_eq!(next_window_size(4, 1), 3);
    assert_eq!(next_window_size(2, 0), 1);
    assert_eq!(next_window_size(1, 0), 1);
    assert_eq!(next_window_size(0, 0), 1);
}

#[test]
fn a_round_goes_on_until_timeout_or_all_acked() {
    let mut packets = map(&[1, 2, 3, 4, 5]);
    let mut window = map(&[1, 2]);
    let mut size = 2;
    let mut got = 1;
    let acks: BTreeSet<u32> = [1].into_iter().collect();
    assert!(!close_round(&mut packets, &mut window, &mut size, &mut got, &acks, false));
    assert_eq!((size, got, packets.len(), window.len()), (2, 1, 5, 2));
}

#[test]
fn a_timed_out_round_shrinks_the_window() {
    let mut packets = map(&[1, 2, 3, 4, 5]);
    let mut window = map(&[1, 2, 3]);
    let mut size = 3;
    let mut got = 1;
    let acks: BTreeSet<u32> = [1].into_iter().collect();
    assert!(close_round(&mut packets, &mut window, &mut size, &mut got, &acks, true));
    assert_eq!(size, 2);
    assert_eq!(got, 0);
    assert_eq!(packets.keys().copied().collect::<Vec<_>>(), vec![2, 3, 4, 5]);
    assert_eq!(window.keys().copied().collect::<Vec<_>>(), vec![2, 3]);
}

#[test]
fn an_acknowledged_round_grows_the_window() {
    let mut packets = map(&[1, 2, 3, 4]);
    let mut window = map(&[1, 2]);
    let mut size = 2;
    let mut got = 2;
    let acks: BTreeSet<u32> = [1, 2].into_iter().collect();
    assert!(close_round(&mut packets, &mut window, &mut size, &mut got, &acks, false));
    assert_eq!(size, 3);
    assert_eq!(window.keys().copied().collect::<Vec<_>>(), vec![3, 4]);
}

#[test]
fn a_round_with_nothing_left_sends_nothing() {
    let mut packets = map(&[1]);
    let mut window = map(&[1]);
    let mut size = 1;
    let mut got = 1;
    let acks: BTreeSet<u32> = [1].into_iter().collect();
    assert!(!close_round(&mut packets, &mut window, &mut size, &mut got, &acks, false));
    assert!(packets.is_empty() && window.is_empty());
    assert_eq!((size, got), (2, 0));
}
