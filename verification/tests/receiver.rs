use jap::receiver::Reassembler;
use jap::{FileData, Packet, PacketValue};

fn data(seq: u32, b: u8) -> Packet {
    Packet { seq, value: PacketValue::Data { data: FileData(vec![b]), window: 1 } }
}

fn seqs(ps: &[Packet]) -> Vec<u32> {
    ps.iter().map(|p| p.seq).collect()
}

#[test]
fn in_order_packets_go_straight_through() {
    let mut r = Reassembler::new();
    assert!(r.can_accept(&data(1, 1)));
    assert_eq!(seqs(&r.accept(data(1, 1))), vec![1]);
    assert_eq!(seqs(&r.accept(data(2, 2))), vec![2]);
    assert_eq!(r.ack_cum, 2);
    assert!(r.pending.is_empty());
}

#[test]
fn a_gap_holds_packets_until_it_fills() {
    let mut r = Reassembler::new();
    assert!(r.accept(data(3, 3)).is_empty());
    assert!(r.accept(data(5, 5)).is_empty());
    assert!(r.accept(data(2, 2)).is_empty());
    assert_eq!(r.ack_cum, 0);
    let out = r.accept(data(1, 1));
    assert_eq!(seqs(&out), vec![1, 2, 3]);
    assert_eq!(r.ack_cum, 3);
    assert_eq!(r.pending.keys().copied().collect::<Vec<_>>(), vec![5]);
}

#[test]
fn duplicates_and_starts_are_ignored() {
    let mut r = Reassembler::new();
    r.accept(data(1, 1));
    assert!(r.accept(data(1, 9)).is_empty());
    assert!(r.accept(Packet { seq: 0, value: PacketValue::Start }).is_empty());
    assert!(r.accept(Packet { seq: 7, value: PacketValue::Start }).is_empty());
    assert_eq!(r.ack_cum, 1);
    assert!(r.pending.is_empty());
}

#[test]
fn a_start_in_sequence_moves_the_ack() {
    let mut r = Reassembler::new();
    let out = r.accept(Packet { seq: 1, value: PacketValue::Start });
    assert_eq!(seqs(&out), vec![1]);
    assert_eq!(r.ack_cum, 1);
}

#[test]
fn the_ack_reports_the_cumulative_number() {
    let mut r = Reassembler::new();
    r.accept(data(1, 1));
    r.accept(data(2, 1));
    let mut seq = 0;
    let p = r.ack(&mut seq, 4);
    assert_eq!(seq, 1);
    assert_eq!(p.seq, 0);
    match p.value {
        PacketValue::Ack(a) => {
            assert_eq!(a.cum, 2);
            assert!(a.sel.is_empty());
            assert_eq!(a.adv_win, 4);
        }
        _ => panic!("not an ack"),
    }
}

#[test]
fn no_room_near_the_top_of_the_numbers() {
    let mut r = Reassembler::new();
    r.ack_cum = u32::MAX;
    assert!(!r.can_accept(&data(5, 5)));
    r.ack_cum = u32::MAX - 2;
    assert!(r.can_accept(&data(u32::MAX - 1, 1)));
    assert!(r.can_accept(&data(u32::MAX, 1)));
    r.accept(data(u32::MAX, 1));
    // accepting the next one would carry the ack onto the last number
    assert!(!r.can_accept(&data(u32::MAX - 1, 1)));
    assert!(r.can_accept(&data(3, 1)));
}

#[test]
fn any_arrival_order_delivers_everything_in_order() {
    let order = [4u32, 2, 6, 1, 5, 3, 2, 7];
    let mut r = Reassembler::new();
    let mut delivered = Vec::new();
    for s in order {
        delivered.extend(seqs(&r.accept(data(s, s as u8))));
    }
    assert_eq!(delivered, vec![1, 2, 3, 4, 5, 6, 7]);
    assert_eq!(r.ack_cum, 7);
    assert!(r.pending.is_empty());
}
